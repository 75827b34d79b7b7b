//! Properties of the BLF object stream that the writer relies on to show
//! that what it writes reads back.
use vstd::prelude::*;

use crate::blf::codec::{
    bytes16, bytes32, bytes64, law_le16_roundtrip, law_le32_roundtrip, law_le64_roundtrip, le16,
    le32, le64, CAN_FD_MESSAGE, CAN_FD_MESSAGE_64, CAN_MESSAGE, LOG_CONTAINER, TIME_ONE_NANS,
};
use crate::blf::objects::{
    fd64_data_len, fd64_data_offset, find_lobj_from, is_lobj_at, lemma_find_lobj_bounds,
    lemma_find_lobj_from_bounds, spec_base_header, spec_can_fd_message, spec_can_message,
    spec_find_lobj, spec_message_object, spec_object_header, ts_to_nanos, BaseHeader, ObjectHeader,
};
use crate::blf::reader::{
    spec_days_from_civil, objects_from, opt_seq, prepends, spec_container_data, spec_file_header, spec_log_container, spec_systemtime_nanos, stream_from,
};
use crate::blf::scan::{
    add_frame, add_opt_frame, scan_from, spec_scan_log_container,
    spec_scan_message, spec_scan_object_header, zero_stats, BlfCanStats, ScanObjectHeader,
};
use crate::blf::reader::scan_stream_from;
use crate::blf::writer::{base_header_bytes, container_bytes, file_header_bytes, object_bytes, zeros};
use crate::event::{
    classic_count, fd_count, frame_bytes, frames_fit, lemma_wrap_add, lemma_wrapping_add, usize_wrap,
    EventModel,
};

verus! {

/// `d` starts with the bytes of `a`.
pub open spec fn extends(d: Seq<u8>, a: Seq<u8>) -> bool {
    &&& a.len() <= d.len()
    &&& forall|k: int| 0 <= k < a.len() ==> #[trigger] d[k] == a[k]
}

/// A signature found in a prefix is found at the same place in the whole.
proof fn lemma_find_from_extends(d: Seq<u8>, a: Seq<u8>, p: int, last_a: int, last_d: int)
    requires
        extends(d, a),
        last_a <= last_d,
        find_lobj_from(a, p, last_a) is Some,
    ensures
        find_lobj_from(d, p, last_d) == find_lobj_from(a, p, last_a),
    decreases last_a - p + 1,
{
    lemma_find_lobj_from_bounds(a, p, last_a);
    if is_lobj_at(a, p) {
        assert(d[p] == a[p] && d[p + 1] == a[p + 1] && d[p + 2] == a[p + 2] && d[p + 3] == a[p + 3]);
        assert(is_lobj_at(d, p));
    } else {
        lemma_find_lobj_from_bounds(a, p + 1, last_a);
        if p >= 0 {
            assert(d[p] == a[p] && d[p + 1] == a[p + 1] && d[p + 2] == a[p + 2] && d[p + 3] == a[p + 3]);
        }
        assert(!is_lobj_at(d, p));
        lemma_find_from_extends(d, a, p + 1, last_a, last_d);
    }
}

/// Objects parsed up to the end of a prefix are parsed the same way in the
/// whole, and parsing goes on from the end of the prefix.
pub proof fn lemma_objects_extends(d: Seq<u8>, a: Seq<u8>, o: int, start: i64)
    requires
        extends(d, a),
        d.len() <= usize::MAX,
        0 <= o <= a.len(),
        objects_from(a, o, start) matches Ok((_, c)) && c == a.len(),
    ensures
        objects_from(a, o, start) matches Ok((ms, _)) && prepends(
            objects_from(d, o, start),
            ms,
            objects_from(d, a.len() as int, start),
        ),
    decreases a.len() - o,
{
    if o + 16 > a.len() {
        match objects_from(d, o, start) {
            Ok((ms, c)) => {
                assert(Seq::<EventModel>::empty() + ms =~= ms);
            },
            Err(_) => {},
        }
    } else {
        lemma_find_lobj_bounds(a, o);
        let max_a = if o + 8 <= a.len() { o + 8 } else { a.len() as int };
        let max_d = if o + 8 <= d.len() { o + 8 } else { d.len() as int };
        lemma_find_from_extends(d, a, o, max_a - 4, max_d - 4);
        let p = spec_find_lobj(a, o)->Some_0;
        assert(a.subrange(p, p + 16) =~= d.subrange(p, p + 16));
        let base = spec_base_header(a.subrange(p, p + 16))->Ok_0;
        let h = spec_object_header(a, p, start)->Ok_0;
        assert(spec_object_header(d, p, start) == spec_object_header(a, p, start));
        assert(a.subrange(h.payload_offset as int, h.next_offset as int) =~= d.subrange(
            h.payload_offset as int,
            h.next_offset as int,
        ));
        if h.object_type == CAN_FD_MESSAGE_64 {
            let pl = a.subrange(h.payload_offset as int, h.next_offset as int);
            if pl.len() >= 40 {
                let dof = fd64_data_offset(h, pl[35]);
                let n = fd64_data_len(h, pl[2], dof);
                if dof + n <= a.len() {
                    assert(a.subrange(dof, dof + n) =~= d.subrange(dof, dof + n));
                }
            }
        }
        assert(spec_message_object(d, h) == spec_message_object(a, h));
        let ev = spec_message_object(a, h)->Ok_0;
        lemma_objects_extends(d, a, p + base.object_size, start);
        let rest = objects_from(a, p + base.object_size, start)->Ok_0.0;
        match objects_from(d, a.len() as int, start) {
            Ok((ms, c)) => {
                assert(opt_seq(ev) + (rest + ms) =~= (opt_seq(ev) + rest) + ms);
            },
            Err(_) => {},
        }
    }
}

/// Objects read up to the end of a prefix of a file are read the same way
/// in the whole file, and reading goes on from the end of the prefix.
pub proof fn lemma_stream_extends(d: Seq<u8>, a: Seq<u8>, pos: int, tail: Seq<u8>, start: i64)
    requires
        extends(d, a),
        0 <= pos <= a.len(),
        stream_from(a, pos, tail, start) matches Ok((_, (p, _))) && p == a.len(),
    ensures
        stream_from(a, pos, tail, start) matches Ok((ms, (_, t))) && prepends(
            stream_from(d, pos, tail, start),
            ms,
            stream_from(d, a.len() as int, t, start),
        ),
    decreases a.len() - pos,
{
    if pos + 16 > a.len() {
        match stream_from(d, pos, tail, start) {
            Ok((ms, c)) => {
                assert(Seq::<EventModel>::empty() + ms =~= ms);
            },
            Err(_) => {},
        }
    } else {
        assert(a.subrange(pos, pos + 16) =~= d.subrange(pos, pos + 16));
        let base = spec_base_header(a.subrange(pos, pos + 16))->Ok_0;
        let size = base.object_size as int;
        let next = pos + size + size % 4;
        assert(a.subrange(pos + 16, pos + size) =~= d.subrange(pos + 16, pos + size));
        if base.object_type == LOG_CONTAINER {
            let (evs, t2) = spec_log_container(a.subrange(pos + 16, pos + size), tail, start)->Ok_0;
            lemma_stream_extends(d, a, next, t2, start);
            let rest = stream_from(a, next, t2, start)->Ok_0.0;
            let t = stream_from(a, next, t2, start)->Ok_0.1.1;
            match stream_from(d, a.len() as int, t, start) {
                Ok((ms, c)) => {
                    assert(evs + (rest + ms) =~= (evs + rest) + ms);
                },
                Err(_) => {},
            }
        } else {
            lemma_stream_extends(d, a, next, tail, start);
        }
    }
}

/// Reading from `pos` on depends only on the bytes from `pos` on.
pub proof fn lemma_stream_same_suffix(d1: Seq<u8>, d2: Seq<u8>, from: int, pos: int, tail: Seq<u8>, start: i64)
    requires
        d1.len() == d2.len(),
        0 <= from <= pos,
        forall|k: int| from <= k < d1.len() ==> #[trigger] d1[k] == d2[k],
    ensures
        stream_from(d1, pos, tail, start) == stream_from(d2, pos, tail, start),
    decreases d1.len() - pos,
{
    if pos + 16 <= d1.len() {
        assert(d1.subrange(pos, pos + 16) =~= d2.subrange(pos, pos + 16));
        match spec_base_header(d1.subrange(pos, pos + 16)) {
            Ok(base) => {
                let size = base.object_size as int;
                let next = pos + size + size % 4;
                if size >= 16 && next <= d1.len() {
                    assert(d1.subrange(pos + 16, pos + size) =~= d2.subrange(pos + 16, pos + size));
                    match spec_log_container(d1.subrange(pos + 16, pos + size), tail, start) {
                        Ok((evs, t)) => {
                            lemma_stream_same_suffix(d1, d2, from, next, t, start);
                        },
                        Err(_) => {},
                    }
                    lemma_stream_same_suffix(d1, d2, from, next, tail, start);
                }
            },
            Err(_) => {},
        }
    }
}

/// The common object header written reads back.
pub proof fn lemma_base_header_bytes(header_size: u16, header_version: u16, object_size: u32, object_type: u32)
    ensures
        spec_base_header(base_header_bytes(header_size, header_version, object_size, object_type))
            == Ok::<BaseHeader, crate::blf::codec::Fault>(
            BaseHeader {
                header_size: header_size as usize,
                header_version,
                object_size: object_size as usize,
                object_type,
            },
        ),
{
    let sig = seq![76u8, 79u8, 66u8, 74u8];
    let b = base_header_bytes(header_size, header_version, object_size, object_type);
    assert(b =~= sig + bytes16(header_size) + (bytes16(header_version) + bytes32(object_size)
        + bytes32(object_type)));
    law_le16_roundtrip(header_size, sig, bytes16(header_version) + bytes32(object_size) + bytes32(object_type));
    assert(b =~= (sig + bytes16(header_size)) + bytes16(header_version) + (bytes32(object_size)
        + bytes32(object_type)));
    law_le16_roundtrip(header_version, sig + bytes16(header_size), bytes32(object_size) + bytes32(object_type));
    assert(b =~= (sig + bytes16(header_size) + bytes16(header_version)) + bytes32(object_size)
        + bytes32(object_type));
    law_le32_roundtrip(object_size, sig + bytes16(header_size) + bytes16(header_version), bytes32(object_type));
    assert(b =~= (sig + bytes16(header_size) + bytes16(header_version) + bytes32(object_size))
        + bytes32(object_type) + Seq::<u8>::empty());
    law_le32_roundtrip(
        object_type,
        sig + bytes16(header_size) + bytes16(header_version) + bytes32(object_size),
        Seq::<u8>::empty(),
    );
}

/// The body of a log container holding `objects` uncompressed.
pub open spec fn container_body(objects: Seq<u8>) -> Seq<u8> {
    bytes16(0) + zeros(6) + bytes32(objects.len() as u32) + zeros(4) + objects
}

/// An uncompressed container body holding whole objects yields their
/// events and leaves no tail.
proof fn lemma_container_body(objects: Seq<u8>, events: Seq<EventModel>, start: i64)
    requires
        objects_from(objects, 0, start) == Ok::<(Seq<EventModel>, int), crate::blf::codec::Fault>(
            (events, objects.len() as int),
        ),
    ensures
        spec_log_container(container_body(objects), Seq::empty(), start) == Ok::<
            (Seq<EventModel>, Seq<u8>),
            crate::blf::codec::Fault,
        >((events, Seq::empty())),
{
    let n = objects.len();
    let body = container_body(objects);
    assert(body =~= Seq::<u8>::empty() + bytes16(0) + (zeros(6) + bytes32(n as u32) + zeros(4) + objects));
    law_le16_roundtrip(0, Seq::<u8>::empty(), zeros(6) + bytes32(n as u32) + zeros(4) + objects);
    assert(body.subrange(16, body.len() as int) =~= objects);
    assert(spec_container_data(body) == Ok::<Seq<u8>, crate::blf::codec::Fault>(objects));
    assert(Seq::<u8>::empty() + objects =~= objects);
    assert(objects.subrange(n as int, n as int) =~= Seq::<u8>::empty());
}

/// A log container holding whole objects reads back as the events of those
/// objects, with no tail left.
#[verifier::rlimit(30)]
pub proof fn lemma_stream_container(w: Seq<u8>, objects: Seq<u8>, events: Seq<EventModel>, start: i64)
    requires
        objects_from(objects, 0, start) == Ok::<(Seq<EventModel>, int), crate::blf::codec::Fault>(
            (events, objects.len() as int),
        ),
        objects.len() + 64 < 0x1_0000_0000,
    ensures
        stream_from(w + container_bytes(objects), w.len() as int, Seq::empty(), start) == Ok::<
            (Seq<EventModel>, (int, Seq<u8>)),
            crate::blf::codec::Fault,
        >((events, ((w + container_bytes(objects)).len() as int, Seq::empty()))),
{
    let n = objects.len();
    let size = 32 + n;
    let d = w + container_bytes(objects);
    let pos = w.len() as int;
    let bh = base_header_bytes(16, 1, size as u32, LOG_CONTAINER);
    assert(container_bytes(objects) =~= bh + container_body(objects) + zeros((size % 4) as int));
    assert(d.subrange(pos, pos + 16) =~= bh);
    assert(d.subrange(pos + 16, pos + size) =~= container_body(objects));
    lemma_base_header_bytes(16, 1, size as u32, LOG_CONTAINER);
    lemma_container_body(objects, events, start);
    assert(d.len() == pos + size + size % 4);
    assert(stream_from(d, d.len() as int, Seq::empty(), start) == Ok::<
        (Seq<EventModel>, (int, Seq<u8>)),
        crate::blf::codec::Fault,
    >((Seq::empty(), (d.len() as int, Seq::empty()))));
    assert(events + Seq::<EventModel>::empty() =~= events);
}

/// What the reader makes of a written message object.
pub open spec fn read_back(object_type: u32, payload: Seq<u8>, relative_timestamp: u64) -> Seq<EventModel> {
    if object_type == CAN_MESSAGE {
        match spec_can_message(payload, relative_timestamp as i64) {
            Ok(e) => seq![e],
            Err(_) => Seq::empty(),
        }
    } else if object_type == CAN_FD_MESSAGE {
        match spec_can_fd_message(payload, relative_timestamp as i64) {
            Ok(e) => seq![e],
            Err(_) => Seq::empty(),
        }
    } else {
        Seq::empty()
    }
}

/// The layout of a written message object.
proof fn lemma_object_layout(pre: Seq<u8>, object_type: u32, payload: Seq<u8>, relative_timestamp: u64)
    requires
        payload.len() == 16 || payload.len() == 84,
    ensures
        ({
            let d = pre + object_bytes(object_type, payload, relative_timestamp);
            let o = pre.len() as int;
            &&& d.len() == o + 32 + payload.len()
            &&& is_lobj_at(d, o)
            &&& d.subrange(o, o + 16) == base_header_bytes(32, 1, (32 + payload.len()) as u32, object_type)
            &&& le32(d, o + 16) == TIME_ONE_NANS
            &&& le64(d, o + 24) == relative_timestamp
            &&& d.subrange(o + 32, o + 32 + payload.len()) == payload
        }),
{
    let plen = payload.len();
    let size = 32 + plen;
    let ob = object_bytes(object_type, payload, relative_timestamp);
    let d = pre + ob;
    let o = pre.len() as int;
    let bh = base_header_bytes(32, 1, size as u32, object_type);
    let ext = bytes32(TIME_ONE_NANS) + bytes16(0) + bytes16(0);
    assert(zeros((plen % 4) as int) =~= Seq::<u8>::empty());
    assert(ob =~= bh + ext + bytes64(relative_timestamp) + payload);
    assert(d[o] == 76 && d[o + 1] == 79 && d[o + 2] == 66 && d[o + 3] == 74);
    assert(d.subrange(o, o + 16) =~= bh);
    assert(le32(d, o + 16) == TIME_ONE_NANS) by {
        assert(d =~= (pre + bh) + bytes32(TIME_ONE_NANS) + (bytes16(0) + bytes16(0) + bytes64(
            relative_timestamp,
        ) + payload));
        law_le32_roundtrip(
            TIME_ONE_NANS,
            pre + bh,
            bytes16(0) + bytes16(0) + bytes64(relative_timestamp) + payload,
        );
    }
    assert(le64(d, o + 24) == relative_timestamp) by {
        assert(d =~= (pre + bh + ext) + bytes64(relative_timestamp) + payload);
        law_le64_roundtrip(relative_timestamp, pre + bh + ext, payload);
    }
    assert(d.subrange(o + 32, o + size) =~= payload);
}

/// The header of a message object laid out as the writer does reads back.
proof fn lemma_object_header_single(d: Seq<u8>, o: int, object_type: u32, plen: int, relative_timestamp: u64)
    requires
        plen == 16 || plen == 84,
        0 <= o,
        relative_timestamp <= i64::MAX,
        o + 200 <= usize::MAX,
        d.len() == o + 32 + plen,
        is_lobj_at(d, o),
        d.subrange(o, o + 16) == base_header_bytes(32, 1, (32 + plen) as u32, object_type),
        le32(d, o + 16) == TIME_ONE_NANS,
        le64(d, o + 24) == relative_timestamp,
    ensures
        spec_find_lobj(d, o) == Some(o),
        spec_base_header(d.subrange(o, o + 16)) == Ok::<BaseHeader, crate::blf::codec::Fault>(
            BaseHeader {
                header_size: 32,
                header_version: 1,
                object_size: (32 + plen) as usize,
                object_type,
            },
        ),
        spec_object_header(d, o, 0) == Ok::<ObjectHeader, crate::blf::codec::Fault>(
            ObjectHeader {
                payload_offset: (o + 32) as usize,
                next_offset: (o + 32 + plen) as usize,
                object_type,
                timestamp_nanos: relative_timestamp as i64,
            },
        ),
{
    lemma_base_header_bytes(32, 1, (32 + plen) as u32, object_type);
    let ts = ts_to_nanos(le32(d, o + 16), le64(d, o + 24));
    assert(ts == relative_timestamp as i64);
    assert((0i64).wrapping_add(ts) == relative_timestamp as i64);
}

/// A message object laid out as the writer does, at the end of the data,
/// reads back as its event.
#[verifier::rlimit(30)]
proof fn lemma_objects_single_at(d: Seq<u8>, o: int, object_type: u32, payload: Seq<u8>, relative_timestamp: u64)
    requires
        (object_type == CAN_MESSAGE && payload.len() == 16) || (object_type == CAN_FD_MESSAGE
            && payload.len() == 84),
        0 <= o,
        relative_timestamp <= i64::MAX,
        o + 200 <= usize::MAX,
        d.len() == o + 32 + payload.len(),
        is_lobj_at(d, o),
        d.subrange(o, o + 16) == base_header_bytes(32, 1, (32 + payload.len()) as u32, object_type),
        le32(d, o + 16) == TIME_ONE_NANS,
        le64(d, o + 24) == relative_timestamp,
        d.subrange(o + 32, o + 32 + payload.len()) == payload,
    ensures
        objects_from(d, o, 0) == Ok::<(Seq<EventModel>, int), crate::blf::codec::Fault>(
            (read_back(object_type, payload, relative_timestamp), d.len() as int),
        ),
{
    let size = 32 + payload.len();
    lemma_object_header_single(d, o, object_type, payload.len() as int, relative_timestamp);
    let h = ObjectHeader {
        payload_offset: (o + 32) as usize,
        next_offset: (o + size) as usize,
        object_type,
        timestamp_nanos: relative_timestamp as i64,
    };
    let ev = if object_type == CAN_MESSAGE {
        spec_can_message(payload, relative_timestamp as i64)->Ok_0
    } else {
        spec_can_fd_message(payload, relative_timestamp as i64)->Ok_0
    };
    assert(spec_message_object(d, h) == Ok::<Option<EventModel>, crate::blf::codec::Fault>(Some(ev)));
    assert(objects_from(d, o + size, 0) == Ok::<(Seq<EventModel>, int), crate::blf::codec::Fault>(
        (Seq::empty(), o + size),
    ));
    assert(opt_seq(Some(ev)) + Seq::<EventModel>::empty() =~= read_back(
        object_type,
        payload,
        relative_timestamp,
    ));
}

/// A written message object at the end of the data reads back as its event.
pub proof fn lemma_objects_single(pre: Seq<u8>, object_type: u32, payload: Seq<u8>, relative_timestamp: u64)
    requires
        (object_type == CAN_MESSAGE && payload.len() == 16) || (object_type == CAN_FD_MESSAGE
            && payload.len() == 84),
        relative_timestamp <= i64::MAX,
        pre.len() + 200 <= usize::MAX,
    ensures
        objects_from(pre + object_bytes(object_type, payload, relative_timestamp), pre.len() as int, 0)
            == Ok::<(Seq<EventModel>, int), crate::blf::codec::Fault>(
            (
                read_back(object_type, payload, relative_timestamp),
                (pre + object_bytes(object_type, payload, relative_timestamp)).len() as int,
            ),
        ),
{
    lemma_object_layout(pre, object_type, payload, relative_timestamp);
    lemma_objects_single_at(
        pre + object_bytes(object_type, payload, relative_timestamp),
        pre.len() as int,
        object_type,
        payload,
        relative_timestamp,
    );
}

/// A written file header reads back: the objects start after its 144 bytes
/// and the start time is 0.
pub proof fn lemma_file_header(file_size: u64, uncompressed_size: u64, object_count: u32, rest: Seq<u8>)
    ensures
        spec_file_header(file_header_bytes(file_size, uncompressed_size, object_count) + rest)
            == Ok::<(int, i64), crate::blf::codec::Fault>((144, 0)),
{
    let hb = file_header_bytes(file_size, uncompressed_size, object_count);
    let d = hb + rest;
    let sig = seq![76u8, 79u8, 71u8, 71u8];
    assert(d =~= sig + bytes32(144) + (seq![5u8, 0u8, 0u8, 0u8, 2u8, 6u8, 8u8, 1u8] + bytes64(
        file_size,
    ) + bytes64(uncompressed_size) + bytes32(object_count) + bytes32(0) + zeros(104) + rest));
    law_le32_roundtrip(
        144,
        sig,
        seq![5u8, 0u8, 0u8, 0u8, 2u8, 6u8, 8u8, 1u8] + bytes64(file_size) + bytes64(uncompressed_size)
            + bytes32(object_count) + bytes32(0) + zeros(104) + rest,
    );
    assert(d.subrange(40, 56) =~= zeros(16));
    let s = d.subrange(40, 56);
    assert(le16(s, 0) == 0);
    assert(spec_systemtime_nanos(s) == 0);
}

/// The file header reads the same in a file that extends it.
pub proof fn lemma_file_header_extends(d: Seq<u8>, a: Seq<u8>)
    requires
        extends(d, a),
        spec_file_header(a) is Ok,
    ensures
        spec_file_header(d) == spec_file_header(a),
{
    assert(d[0] == a[0] && d[1] == a[1] && d[2] == a[2] && d[3] == a[3]);
    assert(d[4] == a[4] && d[5] == a[5] && d[6] == a[6] && d[7] == a[7]);
    assert(d.subrange(40, 56) =~= a.subrange(40, 56));
}

/// The counts after the frames among some events: each CAN frame counts
/// as classical, each CAN FD frame as FD, with its payload length.
pub open spec fn counted(s: BlfCanStats, events: Seq<EventModel>) -> BlfCanStats
    decreases events.len(),
{
    if events.len() == 0 {
        s
    } else {
        let next = match events[0] {
            EventModel::Can { data, .. } => add_frame(s, false, data.len() as usize),
            EventModel::CanFd { data, .. } => add_frame(s, true, data.len() as usize),
            _ => s,
        };
        counted(next, events.drop_first())
    }
}

/// Counting two runs of events is counting one after the other.
pub proof fn lemma_counted_concat(s: BlfCanStats, a: Seq<EventModel>, b: Seq<EventModel>)
    ensures
        counted(s, a + b) == counted(counted(s, a), b),
    decreases a.len(),
{
    if a.len() == 0 {
        assert(a + b =~= b);
    } else {
        let next = match a[0] {
            EventModel::Can { data, .. } => add_frame(s, false, data.len() as usize),
            EventModel::CanFd { data, .. } => add_frame(s, true, data.len() as usize),
            _ => s,
        };
        assert((a + b).drop_first() =~= a.drop_first() + b);
        lemma_counted_concat(next, a.drop_first(), b);
    }
}

/// Scanning one message object counts what parsing it yields.
proof fn lemma_scan_message(d: Seq<u8>, h: ObjectHeader, s: BlfCanStats)
    requires
        spec_message_object(d, h) is Ok,
    ensures
        spec_scan_message(
            d,
            ScanObjectHeader {
                payload_offset: h.payload_offset,
                next_offset: h.next_offset,
                object_type: h.object_type,
            },
        ) matches Ok(fr) && add_opt_frame(s, fr) == counted(s, opt_seq(spec_message_object(d, h)->Ok_0)),
{
    let ev = spec_message_object(d, h)->Ok_0;
    match ev {
        Some(e) => {
            assert(opt_seq(ev).drop_first() =~= Seq::<EventModel>::empty());
            let next = match e {
                EventModel::Can { data, .. } => add_frame(s, false, data.len() as usize),
                EventModel::CanFd { data, .. } => add_frame(s, true, data.len() as usize),
                _ => s,
            };
            assert(counted(next, Seq::<EventModel>::empty()) == next);
            assert(counted(s, opt_seq(ev)) == next);
        },
        None => {},
    }
}

/// Scanning objects counts the events that parsing them yields, and stops
/// at the same place.
pub proof fn lemma_scan_objects(d: Seq<u8>, o: int, start: i64, s: BlfCanStats)
    requires
        objects_from(d, o, start) is Ok,
    ensures
        scan_from(d, o, s) == Ok::<(BlfCanStats, int), crate::blf::codec::Fault>(
            (counted(s, objects_from(d, o, start)->Ok_0.0), objects_from(d, o, start)->Ok_0.1),
        ),
    decreases d.len() - o,
{
    if o < 0 || o + 16 > d.len() {
    } else {
        lemma_find_lobj_bounds(d, o);
        match spec_find_lobj(d, o) {
            None => {},
            Some(p) => {
                let base = spec_base_header(d.subrange(p, p + 16))->Ok_0;
                if p + base.object_size > d.len() || p + base.header_size > d.len() {
                } else {
                    let h = spec_object_header(d, p, start)->Ok_0;
                    let sh = ScanObjectHeader {
                        payload_offset: h.payload_offset,
                        next_offset: h.next_offset,
                        object_type: h.object_type,
                    };
                    assert(spec_scan_object_header(p, base) == Ok::<ScanObjectHeader, crate::blf::codec::Fault>(sh));
                    lemma_scan_message(d, h, s);
                    let fr = spec_scan_message(d, sh)->Ok_0;
                    let ev = spec_message_object(d, h)->Ok_0;
                    let rest = objects_from(d, p + base.object_size, start)->Ok_0.0;
                    lemma_scan_objects(d, p + base.object_size, start, add_opt_frame(s, fr));
                    lemma_counted_concat(s, opt_seq(ev), rest);
                }
            },
        }
    }
}

/// Scanning a container counts the events that parsing it yields and
/// leaves the same tail.
proof fn lemma_scan_container(body: Seq<u8>, tail: Seq<u8>, start: i64, s: BlfCanStats)
    requires
        spec_log_container(body, tail, start) is Ok,
    ensures
        spec_scan_log_container(body, tail, s) == Ok::<(BlfCanStats, Seq<u8>), crate::blf::codec::Fault>(
            (counted(s, spec_log_container(body, tail, start)->Ok_0.0), spec_log_container(body, tail, start)->Ok_0.1),
        ),
{
    let data = spec_container_data(body)->Ok_0;
    lemma_scan_objects(tail + data, 0, start, s);
}

/// Counting the frames of a file's object stream (`scan_can_stats`) gives
/// the counts of the frames that reading its events (`collect_events`)
/// yields, and ends at the same position with the same tail, whenever
/// reading the events succeeds.
pub proof fn law_scan_counts_collected_events(d: Seq<u8>, pos: int, tail: Seq<u8>, start: i64, s: BlfCanStats)
    requires
        stream_from(d, pos, tail, start) is Ok,
    ensures
        scan_stream_from(d, pos, tail, s) == Ok::<(BlfCanStats, (int, Seq<u8>)), crate::blf::codec::Fault>(
            (counted(s, stream_from(d, pos, tail, start)->Ok_0.0), stream_from(d, pos, tail, start)->Ok_0.1),
        ),
    decreases d.len() - pos,
{
    if pos < 0 || pos + 16 > d.len() {
    } else {
        let base = spec_base_header(d.subrange(pos, pos + 16))->Ok_0;
        let size = base.object_size as int;
        let next = pos + size + size % 4;
        if base.object_type == LOG_CONTAINER {
            let body = d.subrange(pos + 16, pos + size);
            lemma_scan_container(body, tail, start, s);
            let (evs, t) = spec_log_container(body, tail, start)->Ok_0;
            let s2 = counted(s, evs);
            law_scan_counts_collected_events(d, next, t, start, s2);
            lemma_counted_concat(s, evs, stream_from(d, next, t, start)->Ok_0.0);
        } else {
            law_scan_counts_collected_events(d, next, tail, start, s);
        }
    }
}


/// Counting frames from zero gives how many classical and FD frames there
/// are and their payload bytes, each wrapping around at `2^usize::BITS`
/// (and so exactly the counts wherever they fit in `usize`).
pub proof fn law_counted_totals(events: Seq<EventModel>)
    requires
        frames_fit(events),
    ensures
        counted(zero_stats(), events) == (BlfCanStats {
            messages: usize_wrap((classic_count(events) + fd_count(events)) as int),
            classic: usize_wrap(classic_count(events) as int),
            fd: usize_wrap(fd_count(events) as int),
            payload_bytes: usize_wrap(frame_bytes(events) as int),
        }),
{
    lemma_counted_from(zero_stats(), events);
}

proof fn lemma_counted_from(s: BlfCanStats, events: Seq<EventModel>)
    requires
        frames_fit(events),
    ensures
        counted(s, events) == (BlfCanStats {
            messages: usize_wrap(s.messages + classic_count(events) + fd_count(events)),
            classic: usize_wrap(s.classic + classic_count(events)),
            fd: usize_wrap(s.fd + fd_count(events)),
            payload_bytes: usize_wrap(s.payload_bytes + frame_bytes(events)),
        }),
    decreases events.len(),
{
    let m = usize::MAX as int + 1;
    if events.len() == 0 {
        vstd::arithmetic::div_mod::lemma_small_mod(s.messages as nat, m as nat);
        vstd::arithmetic::div_mod::lemma_small_mod(s.classic as nat, m as nat);
        vstd::arithmetic::div_mod::lemma_small_mod(s.fd as nat, m as nat);
        vstd::arithmetic::div_mod::lemma_small_mod(s.payload_bytes as nat, m as nat);
    } else {
        let e = events[0];
        let rest = events.drop_first();
        assert(frames_fit(rest)) by {
            assert forall|i: int| 0 <= i < rest.len() implies match #[trigger] rest[i] {
                EventModel::Can { data, .. } => data.len() <= usize::MAX,
                EventModel::CanFd { data, .. } => data.len() <= usize::MAX,
                _ => true,
            } by {
                assert(rest[i] == events[i + 1]);
            }
        }
        let next = match e {
            EventModel::Can { data, .. } => add_frame(s, false, data.len() as usize),
            EventModel::CanFd { data, .. } => add_frame(s, true, data.len() as usize),
            _ => s,
        };
        lemma_counted_from(next, rest);
        let cr = classic_count(rest);
        let fr = fd_count(rest);
        let br = frame_bytes(rest);
        match e {
            EventModel::Can { data, .. } => {
                assert(data.len() <= usize::MAX);
                let n = data.len() as usize;
                lemma_wrapping_add(s.messages, 1);
                lemma_wrapping_add(s.classic, 1);
                lemma_wrapping_add(s.payload_bytes, n);
                lemma_wrap_add(s.messages + 1, (cr + fr) as int);
                lemma_wrap_add(s.classic + 1, cr as int);
                lemma_wrap_add(s.payload_bytes + n, br as int);
            },
            EventModel::CanFd { data, .. } => {
                assert(data.len() <= usize::MAX);
                let n = data.len() as usize;
                lemma_wrapping_add(s.messages, 1);
                lemma_wrapping_add(s.fd, 1);
                lemma_wrapping_add(s.payload_bytes, n);
                lemma_wrap_add(s.messages + 1, (cr + fr) as int);
                lemma_wrap_add(s.fd + 1, fr as int);
                lemma_wrap_add(s.payload_bytes + n, br as int);
            },
            _ => {},
        }
    }
}

/// Counting the frames of a file's object stream from zero gives how many
/// classical and FD frames reading its events yields and their payload
/// bytes (each wrapping around at `2^usize::BITS`), whenever reading the
/// events succeeds.
pub proof fn law_scan_totals(d: Seq<u8>, pos: int, tail: Seq<u8>, start: i64)
    requires
        stream_from(d, pos, tail, start) is Ok,
        frames_fit(stream_from(d, pos, tail, start)->Ok_0.0),
    ensures
        ({
            let evs = stream_from(d, pos, tail, start)->Ok_0.0;
            scan_stream_from(d, pos, tail, zero_stats()) matches Ok((st, _)) && st == (BlfCanStats {
                messages: usize_wrap((classic_count(evs) + fd_count(evs)) as int),
                classic: usize_wrap(classic_count(evs) as int),
                fd: usize_wrap(fd_count(evs) as int),
                payload_bytes: usize_wrap(frame_bytes(evs) as int),
            })
        }),
{
    law_scan_counts_collected_events(d, pos, tail, start, zero_stats());
    law_counted_totals(stream_from(d, pos, tail, start)->Ok_0.0);
}

/// Whether a year of the proleptic Gregorian calendar has a 29 February.
pub open spec fn is_leap_year(y: int) -> bool {
    (y % 4 == 0 && y % 100 != 0) || y % 400 == 0
}

/// The number of days in month `m` (1 to 12) of year `y`.
pub open spec fn month_length(y: int, m: int) -> int {
    if m == 2 {
        if is_leap_year(y) {
            29
        } else {
            28
        }
    } else if m == 4 || m == 6 || m == 9 || m == 11 {
        30
    } else {
        31
    }
}

/// The era of a year counts as `y / 400`.
proof fn lemma_era(y: int)
    ensures
        (if y >= 0 {
            y / 400
        } else {
            -((399 - y) / 400)
        }) == y / 400,
{
    if y < 0 {
        let q = y / 400;
        let r = y % 400;
        assert(y == 400 * q + r && 0 <= r < 400);
        assert((399 - y) / 400 == -q) by {
            assert(399 - y == 400 * (-q) + (399 - r));
            vstd::arithmetic::div_mod::lemma_fundamental_div_mod_converse(
                399 - y,
                400,
                -q,
                399 - r,
            );
        }
    }
}

/// Day 0 is 1 January 1970.
pub proof fn law_days_epoch()
    ensures
        spec_days_from_civil(1970, 1, 1) == 0,
{
    lemma_era(1969);
}

/// The next day of a month is one day later.
pub proof fn law_days_next_day(y: int, m: int, d: int)
    requires
        1 <= m <= 12,
        1 <= d < month_length(y, m),
    ensures
        spec_days_from_civil(y, m, d + 1) == spec_days_from_civil(y, m, d) + 1,
{
}

/// The first of the next month is the length of this month later; the first
/// of January follows the first of December by 31 days.
pub proof fn law_days_next_month(y: int, m: int)
    requires
        1 <= m <= 12,
    ensures
        m < 12 ==> spec_days_from_civil(y, m + 1, 1) == spec_days_from_civil(y, m, 1) + month_length(y, m),
        m == 12 ==> spec_days_from_civil(y + 1, 1, 1) == spec_days_from_civil(y, 12, 1) + 31,
{
    if m == 2 {
        lemma_days_march(y);
    } else {
        let yy = if m <= 2 { y - 1 } else { y };
        lemma_era(yy);
        if m == 12 {
            lemma_era(y);
        }
    }
}

/// From the first of February to the first of March there are 28 days, 29
/// in a leap year.
proof fn lemma_days_march(y: int)
    ensures
        spec_days_from_civil(y, 3, 1) == spec_days_from_civil(y, 2, 1) + month_length(y, 2),
{
    lemma_era(y - 1);
    lemma_era(y);
    let e1 = (y - 1) / 400;
    let t = (y - 1) - e1 * 400;
    assert(0 <= t < 400);
    if t < 399 {
        assert(y / 400 == e1) by {
            vstd::arithmetic::div_mod::lemma_fundamental_div_mod_converse(y, 400, e1, t + 1);
        }
        let u = t + 1;
        assert(y % 4 == u % 4) by {
            assert(y == 4 * (100 * e1) + u);
            vstd::arithmetic::div_mod::lemma_fundamental_div_mod_converse(y, 4, 100 * e1 + u / 4, u % 4);
        }
        assert(y % 100 == u % 100) by {
            assert(y == 100 * (4 * e1) + u);
            vstd::arithmetic::div_mod::lemma_fundamental_div_mod_converse(y, 100, 4 * e1 + u / 100, u % 100);
        }
        assert(y % 400 == u) by {
            vstd::arithmetic::div_mod::lemma_fundamental_div_mod_converse(y, 400, e1, u);
        }
        assert(u % 100 == 0 ==> u % 4 == 0);
        assert((u / 4 - t / 4) == (if u % 4 == 0 { 1int } else { 0int }));
        assert((u / 100 - t / 100) == (if u % 100 == 0 { 1int } else { 0int }));
    } else {
        assert(y / 400 == e1 + 1) by {
            vstd::arithmetic::div_mod::lemma_fundamental_div_mod_converse(y, 400, e1 + 1, 0);
        }
        assert(y % 400 == 0) by {
            vstd::arithmetic::div_mod::lemma_fundamental_div_mod_converse(y, 400, e1 + 1, 0);
        }
    }
}

/// With 10-microsecond timestamps (flags 1) an object's time is ten thousand times
/// its count in nanoseconds; otherwise the count is nanoseconds; whenever
/// that fits in `i64`.
pub proof fn law_object_time_units(flags: u32, timestamp: u64)
    requires
        timestamp * 10_000 <= i64::MAX,
    ensures
        flags == 1 ==> ts_to_nanos(flags, timestamp) == timestamp * 10_000,
        flags != 1 ==> ts_to_nanos(flags, timestamp) == timestamp,
{
    let x = (timestamp as i64) * 10_000;
    let r: int = 0x1_0000_0000_0000_0000;
    assert(timestamp as i64 == timestamp);
    vstd::arithmetic::div_mod::lemma_small_mod(x as nat, r as nat);
}

} // verus!
