//! Encoding CAN and CAN FD events as BLF objects and the BLF writer.
use vstd::prelude::*;

use crate::blf::codec::{
    bytes16, bytes32, bytes64, push_bytes, push_u16, push_u32, push_u64, BlfParseError, BRS,
    CAN_FD_MESSAGE, CAN_MESSAGE, CAN_MSG_EXT, DIR, EDL, ESI, FILE_HEADER_SIZE, LOG_CONTAINER,
    LOG_CONTAINER_STRUCT_SIZE, MAX_CONTAINER_SIZE, NO_COMPRESSION, OBJ_HEADER_BASE_SIZE,
    OBJ_HEADER_V1_SIZE, REMOTE_FLAG, TIME_ONE_NANS,
};
use crate::blf::laws::{
    extends, lemma_file_header, lemma_file_header_extends, lemma_objects_extends,
    lemma_objects_single, lemma_stream_container, lemma_stream_extends, lemma_stream_same_suffix,
    read_back,
};
use crate::blf::reader::{objects_from, spec_file_header, stream_from};
use crate::event::{
    CanFdLogEvent, CanLogEvent, Channel, ChannelModel, Direction, EventModel, LogEvent,
    TimestampNanos,
};
use crate::text::push_repeated;

verus! {

/// `count` zero bytes.
pub open spec fn zeros(count: int) -> Seq<u8> {
    Seq::new(count as nat, |i: int| 0u8)
}

/// The stored, one-based number of a channel: a numbered channel plus one
/// (saturating), a named channel as 1.
pub open spec fn spec_encode_channel(c: ChannelModel) -> u16 {
    match c {
        ChannelModel::Number(n) => if n == u16::MAX {
            u16::MAX
        } else {
            (n + 1) as u16
        },
        ChannelModel::Named(_) => 1,
    }
}

/// An identifier with the extended bit set for an extended identifier.
pub open spec fn spec_encode_arbitration_id(arbitration_id: u32, extended_id: bool) -> u32 {
    if extended_id {
        arbitration_id | CAN_MSG_EXT
    } else {
        arbitration_id
    }
}

/// The direction bit.
pub open spec fn spec_direction_flag(direction: Direction) -> u8 {
    match direction {
        Direction::Rx => 0,
        Direction::Tx => DIR,
    }
}

/// The 16-byte CAN message structure of a frame: channel, flags, length
/// (at most 8), identifier and up to eight data bytes, zero-filled.
pub open spec fn can_message_bytes(frame: CanLogEvent) -> Seq<u8> {
    let n = if frame.data@.len() <= 8 { frame.data@.len() as int } else { 8 };
    bytes16(spec_encode_channel(frame.channel@)) + seq![
        spec_direction_flag(frame.direction) | if frame.remote_frame {
            REMOTE_FLAG
        } else {
            0u8
        },
        n as u8,
    ] + bytes32(spec_encode_arbitration_id(frame.arbitration_id, frame.extended_id))
        + frame.data@.subrange(0, n) + zeros(8 - n)
}

/// The 84-byte CAN FD message structure of a frame: channel, direction,
/// DLC code, identifier, FD flags (EDL, BRS, ESI), valid length (at most
/// 64) and up to 64 data bytes, zero-filled.
pub open spec fn can_fd_message_bytes(frame: CanFdLogEvent) -> Seq<u8> {
    let n = if frame.data@.len() <= 64 { frame.data@.len() as int } else { 64 };
    bytes16(spec_encode_channel(frame.channel@)) + seq![
        spec_direction_flag(frame.direction),
        frame.dlc_code,
    ] + bytes32(spec_encode_arbitration_id(frame.arbitration_id, frame.extended_id)) + zeros(5)
        + seq![
        EDL | (if frame.bitrate_switch {
            BRS
        } else {
            0u8
        }) | (if frame.error_state_indicator {
            ESI
        } else {
            0u8
        }),
        n as u8,
    ] + zeros(5) + frame.data@.subrange(0, n) + zeros(64 - n)
}

/// Encodes a stored channel number.
pub fn encode_channel(channel: &Channel) -> (n: u16)
    ensures
        n == spec_encode_channel(channel@),
{
    match channel {
        Channel::Number(number) => number.saturating_add(1),
        Channel::Named(_) => 1,
    }
}

/// Encodes an identifier with its extended bit.
pub fn encode_arbitration_id(arbitration_id: u32, extended_id: bool) -> (id: u32)
    ensures
        id == spec_encode_arbitration_id(arbitration_id, extended_id),
{
    if extended_id {
        arbitration_id | CAN_MSG_EXT
    } else {
        arbitration_id
    }
}

/// Encodes the direction bit.
pub fn encode_direction_flag(direction: Direction) -> (f: u8)
    ensures
        f == spec_direction_flag(direction),
{
    match direction {
        Direction::Rx => 0,
        Direction::Tx => DIR,
    }
}

/// Encodes a CAN frame as a CAN message structure.
pub fn encode_can_message(frame: &CanLogEvent) -> (out: Vec<u8>)
    ensures
        out@ == can_message_bytes(*frame),
{
    let data = frame.data.as_slice();
    let n: usize = if data.len() <= 8 { data.len() } else { 8 };
    let mut out: Vec<u8> = Vec::new();
    push_u16(&mut out, encode_channel(&frame.channel));
    out.push(encode_direction_flag(frame.direction) | if frame.remote_frame { REMOTE_FLAG } else { 0 });
    out.push(n as u8);
    push_u32(&mut out, encode_arbitration_id(frame.arbitration_id, frame.extended_id));
    push_bytes(&mut out, &data[0..n]);
    push_repeated(&mut out, 0, 8 - n);
    assert(out@ =~= can_message_bytes(*frame));
    out
}

/// Encodes a CAN FD frame as a CAN FD message structure.
pub fn encode_can_fd_message(frame: &CanFdLogEvent) -> (out: Vec<u8>)
    ensures
        out@ == can_fd_message_bytes(*frame),
{
    let data = frame.data.as_slice();
    let n: usize = if data.len() <= 64 { data.len() } else { 64 };
    let mut out: Vec<u8> = Vec::new();
    push_u16(&mut out, encode_channel(&frame.channel));
    out.push(encode_direction_flag(frame.direction));
    out.push(frame.dlc_code);
    push_u32(&mut out, encode_arbitration_id(frame.arbitration_id, frame.extended_id));
    push_repeated(&mut out, 0, 5);
    out.push(EDL | (if frame.bitrate_switch { BRS } else { 0 }) | (if frame.error_state_indicator { ESI } else { 0 }));
    out.push(n as u8);
    push_repeated(&mut out, 0, 5);
    push_bytes(&mut out, &data[0..n]);
    push_repeated(&mut out, 0, 64 - n);
    assert(out@ =~= can_fd_message_bytes(*frame));
    out
}

/// The 144-byte file header: `LOGG`, its size, the application fields, the
/// file size, the uncompressed size, the object count, and zeros (the
/// start and stop times are left zero).
pub open spec fn file_header_bytes(file_size: u64, uncompressed_size: u64, object_count: u32) -> Seq<u8> {
    seq![76u8, 79u8, 71u8, 71u8] + bytes32(144) + seq![5u8, 0u8, 0u8, 0u8, 2u8, 6u8, 8u8, 1u8]
        + bytes64(file_size) + bytes64(uncompressed_size) + bytes32(object_count) + bytes32(0)
        + zeros(104)
}

/// Builds the file header.
pub fn write_file_header(file_size: u64, uncompressed_size: u64, object_count: u32) -> (out: Vec<u8>)
    ensures
        out@ == file_header_bytes(file_size, uncompressed_size, object_count),
        out@.len() == 144,
{
    let mut out: Vec<u8> = Vec::new();
    out.push(76);
    out.push(79);
    out.push(71);
    out.push(71);
    push_u32(&mut out, FILE_HEADER_SIZE as u32);
    out.push(5);
    out.push(0);
    out.push(0);
    out.push(0);
    out.push(2);
    out.push(6);
    out.push(8);
    out.push(1);
    push_u64(&mut out, file_size);
    push_u64(&mut out, uncompressed_size);
    push_u32(&mut out, object_count);
    push_u32(&mut out, 0);
    push_repeated(&mut out, 0, 32);
    let len = out.len();
    push_repeated(&mut out, 0, FILE_HEADER_SIZE - len);
    assert(out@ =~= file_header_bytes(file_size, uncompressed_size, object_count));
    out
}

/// The common object header: `LOBJ`, header size, header version, object
/// size and object type.
pub open spec fn base_header_bytes(header_size: u16, header_version: u16, object_size: u32, object_type: u32) -> Seq<u8> {
    seq![76u8, 79u8, 66u8, 74u8] + bytes16(header_size) + bytes16(header_version) + bytes32(
        object_size,
    ) + bytes32(object_type)
}

/// Appends a common object header.
pub fn write_base_header_to_vec(output: &mut Vec<u8>, header_size: u16, header_version: u16, object_size: u32, object_type: u32)
    ensures
        final(output)@ == old(output)@ + base_header_bytes(
            header_size,
            header_version,
            object_size,
            object_type,
        ),
{
    output.push(76);
    output.push(79);
    output.push(66);
    output.push(74);
    push_u16(output, header_size);
    push_u16(output, header_version);
    push_u32(output, object_size);
    push_u32(output, object_type);
    assert(final(output)@ =~= old(output)@ + base_header_bytes(
        header_size,
        header_version,
        object_size,
        object_type,
    ));
}

/// A message object: a version 1 header of 32 bytes with a nanosecond
/// timestamp, the payload, and `payload.len() % 4` zero bytes.
pub open spec fn object_bytes(object_type: u32, payload: Seq<u8>, relative_timestamp: u64) -> Seq<u8> {
    base_header_bytes(32, 1, (32 + payload.len()) as u32, object_type) + bytes32(TIME_ONE_NANS)
        + bytes16(0) + bytes16(0) + bytes64(relative_timestamp) + payload + zeros(
        (payload.len() % 4) as int,
    )
}

/// Encodes a message object.
pub fn encode_object(object_type: u32, payload: &[u8], relative_timestamp: u64) -> (out: Vec<u8>)
    requires
        payload@.len() <= 84,
    ensures
        out@ == object_bytes(object_type, payload@, relative_timestamp),
        out@.len() <= 119,
{
    let header_size = OBJ_HEADER_BASE_SIZE + OBJ_HEADER_V1_SIZE;
    let object_size = header_size + payload.len();
    let mut out: Vec<u8> = Vec::new();
    write_base_header_to_vec(&mut out, header_size as u16, 1, object_size as u32, object_type);
    push_u32(&mut out, TIME_ONE_NANS);
    push_u16(&mut out, 0);
    push_u16(&mut out, 0);
    push_u64(&mut out, relative_timestamp);
    push_bytes(&mut out, payload);
    push_repeated(&mut out, 0, payload.len() % 4);
    assert(out@ =~= object_bytes(object_type, payload@, relative_timestamp));
    out
}

/// A log container object holding `objects` uncompressed, followed by
/// `object_size % 4` zero bytes.
pub open spec fn container_bytes(objects: Seq<u8>) -> Seq<u8> {
    let object_size = 32 + objects.len();
    base_header_bytes(16, 1, object_size as u32, LOG_CONTAINER) + bytes16(NO_COMPRESSION) + zeros(6)
        + bytes32(objects.len() as u32) + zeros(4) + objects + zeros((object_size % 4) as int)
}

/// A timestamp relative to the first one, saturating, and 0 when earlier.
pub open spec fn relative_timestamp(timestamp: i64, start: i64) -> u64 {
    let d = timestamp - start;
    if d <= 0 {
        0
    } else if d > i64::MAX {
        i64::MAX as u64
    } else {
        d as u64
    }
}

/// What a writer has produced and holds.
pub ghost struct WriterModel {
    /// The bytes written so far, the file header first.
    pub written: Seq<u8>,
    /// The encoded objects not yet written in a container.
    pub buffered: Seq<u8>,
    /// The number of objects added.
    pub count: u32,
    /// The timestamp of the first object.
    pub first: Option<i64>,
    /// The timestamp of the last object.
    pub last: Option<i64>,
    /// The uncompressed size recorded in the file header.
    pub uncompressed: u64,
    /// The events that a reader finds in the objects added so far.
    pub events: Seq<EventModel>,
}

/// The writer after its buffered objects are written as one container
/// (nothing changes when no object is buffered).
pub open spec fn flushed(m: WriterModel) -> WriterModel {
    if m.buffered.len() == 0 {
        m
    } else {
        WriterModel {
            written: m.written + container_bytes(m.buffered),
            buffered: Seq::empty(),
            uncompressed: (m.uncompressed + 32 + m.buffered.len()) as u64,
            ..m
        }
    }
}

/// The writer after one more object; the buffer is written out once it
/// holds at least 128 KiB.
pub open spec fn with_object(m: WriterModel, object_type: u32, payload: Seq<u8>, timestamp: i64) -> WriterModel {
    let start = match m.first {
        Some(s) => s,
        None => timestamp,
    };
    let relative = relative_timestamp(timestamp, start);
    let added = WriterModel {
        buffered: m.buffered + object_bytes(object_type, payload, relative),
        count: (m.count + 1) as u32,
        first: Some(start),
        last: Some(timestamp),
        events: m.events + read_back(object_type, payload, relative),
        ..m
    };
    if added.buffered.len() >= MAX_CONTAINER_SIZE {
        flushed(added)
    } else {
        added
    }
}

/// The writer after an event: CAN and CAN FD frames become objects, other
/// events are skipped.
pub open spec fn with_event(m: WriterModel, event: LogEvent) -> WriterModel {
    match event {
        LogEvent::Can(frame) => with_object(m, CAN_MESSAGE, can_message_bytes(frame), frame.timestamp_ns),
        LogEvent::CanFd(frame) => with_object(
            m,
            CAN_FD_MESSAGE,
            can_fd_message_bytes(frame),
            frame.timestamp_ns,
        ),
        _ => m,
    }
}

/// The writer after `finish`: the buffer flushed and the file header
/// rewritten with the file size, the uncompressed size and the object count.
pub open spec fn finished(m: WriterModel) -> WriterModel {
    let f = flushed(m);
    WriterModel {
        written: file_header_bytes(f.written.len() as u64, f.uncompressed, f.count) + f.written.subrange(
            144,
            f.written.len() as int,
        ),
        ..f
    }
}

/// Writer of BLF data for CAN and CAN FD events, in memory. Objects are
/// collected in a buffer and written as uncompressed log containers.
pub struct BlfWriter {
    output: Vec<u8>,
    object_buffer: Vec<u8>,
    object_count: u32,
    start_timestamp_nanos: Option<TimestampNanos>,
    stop_timestamp_nanos: Option<TimestampNanos>,
    uncompressed_size: u64,
    events: Ghost<Seq<EventModel>>,
}

impl View for BlfWriter {
    type V = WriterModel;

    closed spec fn view(&self) -> WriterModel {
        WriterModel {
            written: self.output@,
            buffered: self.object_buffer@,
            count: self.object_count,
            first: self.start_timestamp_nanos,
            last: self.stop_timestamp_nanos,
            uncompressed: self.uncompressed_size,
            events: self.events@,
        }
    }
}

/// The events that a reader finds in the buffered objects.
pub open spec fn buffered_events(m: WriterModel) -> Seq<EventModel> {
    objects_from(m.buffered, 0, 0)->Ok_0.0
}

/// What a reader makes of the written bytes and of the buffer: the file
/// header is valid with start time 0, the containers written yield the
/// first events with no tail, and the buffered objects the rest.
#[verifier::opaque]
pub open spec fn reads_back(m: WriterModel) -> bool {
    let eb = buffered_events(m);
    &&& spec_file_header(m.written) == Ok::<(int, i64), crate::blf::codec::Fault>((144, 0))
    &&& objects_from(m.buffered, 0, 0) == Ok::<(Seq<EventModel>, int), crate::blf::codec::Fault>(
        (eb, m.buffered.len() as int),
    )
    &&& eb.len() <= m.events.len()
    &&& eb == m.events.subrange(m.events.len() - eb.len(), m.events.len() as int)
    &&& stream_from(m.written, 144, Seq::empty(), 0) == Ok::<
        (Seq<EventModel>, (int, Seq<u8>)),
        crate::blf::codec::Fault,
    >((m.events.subrange(0, m.events.len() - eb.len()), (m.written.len() as int, Seq::empty())))
}

/// Whether a model reads back depends only on what is written, what is
/// buffered and the events.
proof fn lemma_reads_back_same(m1: WriterModel, m2: WriterModel)
    requires
        reads_back(m1),
        m1.written == m2.written,
        m1.buffered == m2.buffered,
        m1.events == m2.events,
    ensures
        reads_back(m2),
{
    reveal(reads_back);
}

/// Adding an object keeps what is written and buffered readable, with the
/// object's event after the others.
#[verifier::rlimit(40)]
proof fn lemma_reads_back_add(m: WriterModel, object_type: u32, payload: Seq<u8>, relative: u64)
    requires
        reads_back(m),
        (object_type == CAN_MESSAGE && payload.len() == 16) || (object_type == CAN_FD_MESSAGE
            && payload.len() == 84),
        relative <= i64::MAX,
        m.buffered.len() + 400 <= usize::MAX,
    ensures
        reads_back(
            WriterModel {
                buffered: m.buffered + object_bytes(object_type, payload, relative),
                events: m.events + read_back(object_type, payload, relative),
                ..m
            },
        ),
{
    reveal(reads_back);
    let buf = m.buffered;
    let nb = buf + object_bytes(object_type, payload, relative);
    let rb = read_back(object_type, payload, relative);
    let events = m.events;
    let ne = events + rb;
    let eb = buffered_events(m);
    let m2 = WriterModel { buffered: nb, events: ne, ..m };
    assert(objects_from(nb, 0, 0) == Ok::<(Seq<EventModel>, int), crate::blf::codec::Fault>(
        (eb + rb, nb.len() as int),
    )) by {
        assert(extends(nb, buf));
        lemma_objects_extends(nb, buf, 0, 0);
        lemma_objects_single(buf, object_type, payload, relative);
    }
    assert(buffered_events(m2) == eb + rb);
    assert(eb + rb =~= ne.subrange(ne.len() - (eb.len() + rb.len()), ne.len() as int));
    assert(ne.subrange(0, ne.len() - (eb.len() + rb.len())) =~= events.subrange(
        0,
        events.len() - eb.len(),
    ));
}

/// Writing the buffer as a container keeps everything readable.
#[verifier::rlimit(40)]
proof fn lemma_reads_back_flush(m: WriterModel)
    requires
        reads_back(m),
        m.buffered.len() + 64 < 0x1_0000_0000,
        m.written.len() >= 144,
    ensures
        reads_back(flushed(m)),
{
    reveal(reads_back);
    if m.buffered.len() > 0 {
        let w = m.written;
        let buf = m.buffered;
        let events = m.events;
        let eb = buffered_events(m);
        let ef = events.subrange(0, events.len() - eb.len());
        let nw = w + container_bytes(buf);
        let m2 = flushed(m);
        assert(m2.written == nw && m2.buffered == Seq::<u8>::empty() && m2.events == events);
        assert(extends(nw, w));
        assert(spec_file_header(nw) == Ok::<(int, i64), crate::blf::codec::Fault>((144, 0))) by {
            lemma_file_header_extends(nw, w);
        }
        assert(stream_from(nw, 144, Seq::empty(), 0) == Ok::<
            (Seq<EventModel>, (int, Seq<u8>)),
            crate::blf::codec::Fault,
        >((events, (nw.len() as int, Seq::empty())))) by {
            lemma_stream_extends(nw, w, 144, Seq::empty(), 0);
            lemma_stream_container(w, buf, eb, 0);
            assert(ef + eb =~= events);
        }
        assert(objects_from(Seq::<u8>::empty(), 0, 0) == Ok::<
            (Seq<EventModel>, int),
            crate::blf::codec::Fault,
        >((Seq::empty(), 0)));
        assert(buffered_events(m2) =~= Seq::<EventModel>::empty());
        assert(events.subrange(0, events.len() - 0) =~= events);
        assert(events.subrange(events.len() - 0, events.len() as int) =~= Seq::<EventModel>::empty());
    }
}

impl BlfWriter {
    /// The writer's own bounds: the header has been written, the recorded
    /// uncompressed size does not exceed what was written, and the buffer
    /// stays below the container size.
    pub closed spec fn wf(&self) -> bool {
        &&& self.output@.len() >= 144
        &&& self.uncompressed_size <= self.output@.len()
        &&& self.object_buffer@.len() < MAX_CONTAINER_SIZE
        &&& reads_back(self@)
    }

    /// Creates a writer whose output starts with a provisional file header.
    pub fn new() -> (w: Self)
        ensures
            w.wf(),
            w@ == (WriterModel {
                written: file_header_bytes(144, 144, 0),
                buffered: Seq::empty(),
                count: 0,
                first: None,
                last: None,
                uncompressed: 144,
                events: Seq::empty(),
            }),
    {
        let output = write_file_header(FILE_HEADER_SIZE as u64, FILE_HEADER_SIZE as u64, 0);
        proof {
            reveal(reads_back);
            lemma_file_header(144, 144, 0, Seq::empty());
            assert(output@ + Seq::<u8>::empty() =~= output@);
            assert(Seq::<EventModel>::empty().subrange(0, 0) =~= Seq::<EventModel>::empty());
        }
        BlfWriter {
            output,
            object_buffer: Vec::new(),
            object_count: 0,
            start_timestamp_nanos: None,
            stop_timestamp_nanos: None,
            uncompressed_size: FILE_HEADER_SIZE as u64,
            events: Ghost(Seq::empty()),
        }
    }

    /// The bytes written so far.
    pub fn as_bytes(&self) -> (b: &[u8])
        ensures
            b@ == self@.written,
    {
        self.output.as_slice()
    }

    /// The number of message objects written so far.
    pub fn object_count(&self) -> (n: u32)
        ensures
            n == self@.count,
    {
        self.object_count
    }

    /// The bytes written, consuming the writer.
    pub fn into_bytes(self) -> (b: Vec<u8>)
        ensures
            b@ == self@.written,
    {
        self.output
    }

    /// Writes one event into the object buffer: CAN and CAN FD frames
    /// become objects, other events are skipped.
    pub fn write_event(&mut self, event: &LogEvent) -> (r: Result<(), BlfParseError>)
        requires
            old(self).wf(),
            (event is Can || event is CanFd) ==> old(self)@.count < u32::MAX,
        ensures
            r is Ok,
            final(self).wf(),
            final(self)@ == with_event(old(self)@, *event),
    {
        match event {
            LogEvent::Can(frame) => {
                let payload = encode_can_message(frame);
                self.add_object(CAN_MESSAGE, payload.as_slice(), frame.timestamp_ns);
            },
            LogEvent::CanFd(frame) => {
                let payload = encode_can_fd_message(frame);
                self.add_object(CAN_FD_MESSAGE, payload.as_slice(), frame.timestamp_ns);
            },
            _ => {},
        }
        Ok(())
    }

    /// Writes the buffered objects and rewrites the file header.
    pub fn finish(&mut self) -> (r: Result<(), BlfParseError>)
        requires
            old(self).wf(),
        ensures
            r is Ok,
            final(self).wf(),
            final(self)@ == finished(old(self)@),
            final(self)@.buffered.len() == 0,
    {
        self.flush_container();
        let file_size = self.output.len() as u64;
        let header = write_file_header(file_size, self.uncompressed_size, self.object_count);
        let ghost before = self.output@;
        let ghost m = self@;
        let mut i: usize = 0;
        while i < FILE_HEADER_SIZE
            invariant
                self.object_buffer@ == m.buffered,
                self.object_count == m.count,
                self.start_timestamp_nanos == m.first,
                self.stop_timestamp_nanos == m.last,
                self.uncompressed_size == m.uncompressed,
                self.events == m.events,
                reads_back(m),
                m.written == before,
                m.uncompressed <= before.len(),
                m.buffered.len() < MAX_CONTAINER_SIZE,
                i <= 144,
                header@.len() == 144,
                self.output@.len() == before.len(),
                before.len() >= 144,
                forall|k: int| 0 <= k < i ==> self.output@[k] == header@[k],
                forall|k: int| i <= k < before.len() ==> self.output@[k] == before[k],
            decreases 144 - i,
        {
            self.output.set(i, header[i]);
            i = i + 1;
        }
        assert(self.output@ =~= header@ + before.subrange(144, before.len() as int));
        proof {
            reveal(reads_back);
            lemma_file_header(file_size, m.uncompressed, m.count, before.subrange(144, before.len() as int));
            lemma_stream_same_suffix(before, self.output@, 144, 144, Seq::empty(), 0);
        }
        Ok(())
    }

    /// Appends one object to the buffer; writes the buffer out once it
    /// holds at least 128 KiB.
    fn add_object(&mut self, object_type: u32, payload: &[u8], timestamp_ns: TimestampNanos)
        requires
            old(self).wf(),
            old(self)@.count < u32::MAX,
            (object_type == CAN_MESSAGE && payload@.len() == 16) || (object_type == CAN_FD_MESSAGE
                && payload@.len() == 84),
        ensures
            final(self).wf(),
            final(self)@ == with_object(old(self)@, object_type, payload@, timestamp_ns),
    {
        let start = match self.start_timestamp_nanos {
            Some(s) => s,
            None => timestamp_ns,
        };
        self.start_timestamp_nanos = Some(start);
        self.stop_timestamp_nanos = Some(timestamp_ns);
        let diff: i64 = match timestamp_ns.checked_sub(start) {
            Some(v) => v,
            None => if timestamp_ns > start {
                i64::MAX
            } else {
                i64::MIN
            },
        };
        let relative: u64 = if diff > 0 { diff as u64 } else { 0 };
        assert(relative == relative_timestamp(timestamp_ns, start));
        let object = encode_object(object_type, payload, relative);
        proof {
            lemma_reads_back_add(old(self)@, object_type, payload@, relative);
        }
        push_bytes(&mut self.object_buffer, object.as_slice());
        self.events = Ghost(self.events@ + read_back(object_type, payload@, relative));
        self.object_count = self.object_count + 1;
        proof {
            lemma_reads_back_same(
                WriterModel {
                    buffered: old(self)@.buffered + object_bytes(object_type, payload@, relative),
                    events: old(self)@.events + read_back(object_type, payload@, relative),
                    ..old(self)@
                },
                self@,
            );
        }
        if self.object_buffer.len() >= MAX_CONTAINER_SIZE {
            self.flush_container();
        }
    }

    /// Writes the buffered objects as one uncompressed log container.
    fn flush_container(&mut self)
        requires
            old(self).output@.len() >= 144,
            old(self).uncompressed_size <= old(self).output@.len(),
            old(self).object_buffer@.len() < MAX_CONTAINER_SIZE + 200,
            reads_back(old(self)@),
        ensures
            final(self).wf(),
            final(self)@ == flushed(old(self)@),
    {
        if self.object_buffer.len() == 0 {
            return;
        }
        let n = self.object_buffer.len();
        let ghost w = self.output@;
        let ghost buf = self.object_buffer@;
        let object_size = OBJ_HEADER_BASE_SIZE + LOG_CONTAINER_STRUCT_SIZE + n;
        write_base_header_to_vec(&mut self.output, OBJ_HEADER_BASE_SIZE as u16, 1, object_size as u32, LOG_CONTAINER);
        push_u16(&mut self.output, NO_COMPRESSION);
        push_repeated(&mut self.output, 0, 6);
        push_u32(&mut self.output, n as u32);
        push_repeated(&mut self.output, 0, 4);
        push_bytes(&mut self.output, self.object_buffer.as_slice());
        push_repeated(&mut self.output, 0, object_size % 4);
        let len = self.output.len();
        assert(self.output@ =~= w + container_bytes(buf));
        proof {
            lemma_reads_back_flush(old(self)@);
        }
        self.uncompressed_size = self.uncompressed_size + (object_size as u64);
        self.object_buffer = Vec::new();
    }
}

/// What a writer has written reads back once nothing is buffered (as after
/// `finish`): the file header is valid with start time 0, and the object
/// stream yields exactly the events written, in order, leaving no tail.
pub proof fn law_written_reads_back(w: BlfWriter)
    requires
        w.wf(),
        w@.buffered.len() == 0,
    ensures
        spec_file_header(w@.written) == Ok::<(int, i64), crate::blf::codec::Fault>((144, 0)),
        stream_from(w@.written, 144, Seq::empty(), 0) == Ok::<
            (Seq<EventModel>, (int, Seq<u8>)),
            crate::blf::codec::Fault,
        >((w@.events, (w@.written.len() as int, Seq::empty()))),
{
    reveal(reads_back);
    let events = w@.events;
    assert(buffered_events(w@) =~= Seq::<EventModel>::empty());
    assert(events.subrange(0, events.len() - 0) =~= events);
}


/// An event model with its timestamp replaced; other events unchanged.
pub open spec fn at_time(m: EventModel, t: int) -> EventModel {
    match m {
        EventModel::Can {
            channel,
            arbitration_id,
            direction,
            extended_id,
            remote_frame,
            data,
            ..
        } => EventModel::Can {
            timestamp_ns: t,
            channel,
            arbitration_id,
            direction,
            extended_id,
            remote_frame,
            data,
        },
        EventModel::CanFd {
            channel,
            arbitration_id,
            direction,
            extended_id,
            bitrate_switch,
            error_state_indicator,
            dlc_code,
            data,
            ..
        } => EventModel::CanFd {
            timestamp_ns: t,
            channel,
            arbitration_id,
            direction,
            extended_id,
            bitrate_switch,
            error_state_indicator,
            dlc_code,
            data,
        },
        _ => m,
    }
}

/// Whether a channel is stored exactly: a numbered channel below 65535.
pub open spec fn channel_fits(c: ChannelModel) -> bool {
    c matches ChannelModel::Number(n) && n < u16::MAX
}

/// Reading back the stored channel, identifier and flags of a frame that
/// the format holds gives them back.
proof fn lemma_fields_read_back(channel: ChannelModel, arbitration_id: u32, extended_id: bool)
    requires
        channel_fits(channel),
        arbitration_id < 0x8000_0000,
    ensures
        crate::blf::objects::spec_decode_channel(spec_encode_channel(channel)) == channel,
        spec_encode_arbitration_id(arbitration_id, extended_id) & !CAN_MSG_EXT == arbitration_id,
        (spec_encode_arbitration_id(arbitration_id, extended_id) & CAN_MSG_EXT != 0) == extended_id,
{
    let id = arbitration_id;
    assert(id < 0x8000_0000 ==> (id | 0x8000_0000u32) & !0x8000_0000u32 == id) by (bit_vector);
    assert(id < 0x8000_0000 ==> id & !0x8000_0000u32 == id) by (bit_vector);
    assert((id | 0x8000_0000u32) & 0x8000_0000u32 != 0) by (bit_vector);
    assert(id < 0x8000_0000 ==> id & 0x8000_0000u32 == 0) by (bit_vector);
}

/// A CAN frame with a numbered channel below 65535, an identifier below
/// 2^31 and at most eight data bytes, timestamped at or after the first
/// frame written, reads back as itself with its timestamp taken relative to
/// the first frame's.
pub proof fn law_can_frame_reads_back(frame: CanLogEvent, first: i64)
    requires
        channel_fits(frame.channel@),
        frame.arbitration_id < 0x8000_0000,
        frame.data@.len() <= 8,
        first <= frame.timestamp_ns,
        frame.timestamp_ns - first <= i64::MAX,
    ensures
        read_back(CAN_MESSAGE, can_message_bytes(frame), relative_timestamp(frame.timestamp_ns, first))
            == seq![at_time(frame@, frame.timestamp_ns - first)],
{
    let p = can_message_bytes(frame);
    let n = frame.data@.len();
    let ch = spec_encode_channel(frame.channel@);
    let flags = spec_direction_flag(frame.direction) | if frame.remote_frame {
        REMOTE_FLAG
    } else {
        0u8
    };
    let id = spec_encode_arbitration_id(frame.arbitration_id, frame.extended_id);
    let tail = frame.data@.subrange(0, n as int) + zeros(8 - n);
    assert(p =~= Seq::<u8>::empty() + bytes16(ch) + (seq![flags, n as u8] + bytes32(id) + tail));
    crate::blf::codec::law_le16_roundtrip(ch, Seq::<u8>::empty(), seq![flags, n as u8] + bytes32(id) + tail);
    assert(p =~= (bytes16(ch) + seq![flags, n as u8]) + bytes32(id) + tail);
    crate::blf::codec::law_le32_roundtrip(id, bytes16(ch) + seq![flags, n as u8], tail);
    assert(p[2] == flags && p[3] == n as u8);
    assert(p.subrange(8, 8 + n as int) =~= frame.data@);
    lemma_fields_read_back(frame.channel@, frame.arbitration_id, frame.extended_id);
    let r = frame.remote_frame;
    let dflag = spec_direction_flag(frame.direction);
    assert(dflag == 0 || dflag == 1);
    assert((dflag == 0 || dflag == 1) ==> ((dflag | 0x80u8) & 1u8 == dflag && (dflag | 0x80u8) & 0x80u8
        != 0 && (dflag | 0u8) & 1u8 == dflag && (dflag | 0u8) & 0x80u8 == 0)) by (bit_vector);
}

/// A CAN FD frame with a numbered channel below 65535, an identifier below
/// 2^31 and at most 64 data bytes, timestamped at or after the first frame
/// written, reads back as itself with its timestamp taken relative to the
/// first frame's.
pub proof fn law_can_fd_frame_reads_back(frame: CanFdLogEvent, first: i64)
    requires
        channel_fits(frame.channel@),
        frame.arbitration_id < 0x8000_0000,
        frame.data@.len() <= 64,
        first <= frame.timestamp_ns,
        frame.timestamp_ns - first <= i64::MAX,
    ensures
        read_back(
            CAN_FD_MESSAGE,
            can_fd_message_bytes(frame),
            relative_timestamp(frame.timestamp_ns, first),
        ) == seq![at_time(frame@, frame.timestamp_ns - first)],
{
    let p = can_fd_message_bytes(frame);
    let n = frame.data@.len();
    let ch = spec_encode_channel(frame.channel@);
    let dflag = spec_direction_flag(frame.direction);
    let id = spec_encode_arbitration_id(frame.arbitration_id, frame.extended_id);
    let brs = if frame.bitrate_switch {
        BRS
    } else {
        0u8
    };
    let esi = if frame.error_state_indicator {
        ESI
    } else {
        0u8
    };
    let fd = EDL | brs | esi;
    let tail = zeros(5) + seq![fd, n as u8] + zeros(5) + frame.data@.subrange(0, n as int) + zeros(64 - n);
    assert(p =~= Seq::<u8>::empty() + bytes16(ch) + (seq![dflag, frame.dlc_code] + bytes32(id) + tail));
    crate::blf::codec::law_le16_roundtrip(ch, Seq::<u8>::empty(), seq![dflag, frame.dlc_code] + bytes32(id) + tail);
    assert(p =~= (bytes16(ch) + seq![dflag, frame.dlc_code]) + bytes32(id) + tail);
    crate::blf::codec::law_le32_roundtrip(id, bytes16(ch) + seq![dflag, frame.dlc_code], tail);
    assert(p[2] == dflag && p[3] == frame.dlc_code && p[13] == fd && p[14] == n as u8);
    assert(p.subrange(20, 20 + n as int) =~= frame.data@);
    lemma_fields_read_back(frame.channel@, frame.arbitration_id, frame.extended_id);
    assert(dflag == 0 || dflag == 1);
    assert((dflag == 0 || dflag == 1) ==> (dflag & 1u8 == dflag)) by (bit_vector);
    assert((1u8 | 2u8 | 4u8) & 2u8 != 0 && (1u8 | 2u8 | 4u8) & 4u8 != 0) by (bit_vector);
    assert((1u8 | 2u8 | 0u8) & 2u8 != 0 && (1u8 | 2u8 | 0u8) & 4u8 == 0) by (bit_vector);
    assert((1u8 | 0u8 | 4u8) & 2u8 == 0 && (1u8 | 0u8 | 4u8) & 4u8 != 0) by (bit_vector);
    assert((1u8 | 0u8 | 0u8) & 2u8 == 0 && (1u8 | 0u8 | 0u8) & 4u8 == 0) by (bit_vector);
}

/// A CAN or CAN FD frame that the format holds as it is: a numbered
/// channel below 65535, an identifier below 2^31 and at most 8 (CAN) or 64
/// (CAN FD) data bytes. Other events are skipped by the writer.
pub open spec fn blf_representable(e: LogEvent) -> bool {
    match e {
        LogEvent::Can(f) => channel_fits(f.channel@) && f.arbitration_id < 0x8000_0000 && f.data@.len()
            <= 8,
        LogEvent::CanFd(f) => channel_fits(f.channel@) && f.arbitration_id < 0x8000_0000
            && f.data@.len() <= 64,
        _ => true,
    }
}

/// The timestamp of a CAN or CAN FD frame; `None` for other events.
pub open spec fn frame_time(e: LogEvent) -> Option<i64> {
    match e {
        LogEvent::Can(f) => Some(f.timestamp_ns),
        LogEvent::CanFd(f) => Some(f.timestamp_ns),
        _ => None,
    }
}

/// The timestamp of the first CAN or CAN FD frame among the events.
pub open spec fn first_frame_time(evs: Seq<LogEvent>) -> Option<i64>
    decreases evs.len(),
{
    if evs.len() == 0 {
        None
    } else {
        match frame_time(evs[0]) {
            Some(t) => Some(t),
            None => first_frame_time(evs.drop_first()),
        }
    }
}

/// The CAN and CAN FD frames among the events, in order, with their
/// timestamps taken relative to `first`.
pub open spec fn frames_from(evs: Seq<LogEvent>, first: i64) -> Seq<EventModel>
    decreases evs.len(),
{
    if evs.len() == 0 {
        Seq::empty()
    } else {
        (match frame_time(evs[0]) {
            Some(t) => seq![at_time(evs[0]@, t - first)],
            None => Seq::empty(),
        }) + frames_from(evs.drop_first(), first)
    }
}

/// The writer after the events, written one after another.
pub open spec fn with_events(m: WriterModel, evs: Seq<LogEvent>) -> WriterModel
    decreases evs.len(),
{
    if evs.len() == 0 {
        m
    } else {
        with_events(with_event(m, evs[0]), evs.drop_first())
    }
}

/// No frame among the events lies before `first`, nor further after it
/// than an `i64` reaches.
pub open spec fn times_after(evs: Seq<LogEvent>, first: i64) -> bool {
    forall|i: int|
        0 <= i < evs.len() ==> (#[trigger] frame_time(evs[i]) matches Some(t) ==> first <= t && t
            - first <= i64::MAX)
}

proof fn lemma_with_events_from(m: WriterModel, evs: Seq<LogEvent>, first: i64)
    requires
        m.first == Some(first),
        forall|i: int| 0 <= i < evs.len() ==> blf_representable(#[trigger] evs[i]),
        times_after(evs, first),
    ensures
        with_events(m, evs).events == m.events + frames_from(evs, first),
        with_events(m, evs).first == Some(first),
    decreases evs.len(),
{
    if evs.len() == 0 {
        assert(m.events + Seq::<EventModel>::empty() =~= m.events);
    } else {
        let e = evs[0];
        let rest = evs.drop_first();
        assert(blf_representable(e));
        assert(frame_time(evs[0]) == frame_time(e));
        let here: Seq<EventModel> = match frame_time(e) {
            Some(t) => seq![at_time(e@, t - first)],
            None => Seq::empty(),
        };
        match e {
            LogEvent::Can(f) => {
                law_can_frame_reads_back(f, first);
            },
            LogEvent::CanFd(f) => {
                law_can_fd_frame_reads_back(f, first);
            },
            _ => {},
        }
        let m1 = with_event(m, e);
        assert(m1.events == m.events + here);
        assert(m1.first == Some(first));
        assert forall|i: int| 0 <= i < rest.len() implies blf_representable(#[trigger] rest[i]) by {
            assert(rest[i] == evs[i + 1]);
        }
        assert(times_after(rest, first)) by {
            assert forall|i: int| 0 <= i < rest.len() implies (#[trigger] frame_time(rest[i]) matches Some(
                t,
            ) ==> first <= t && t - first <= i64::MAX) by {
                assert(rest[i] == evs[i + 1]);
                assert(frame_time(evs[i + 1]) matches Some(t) ==> first <= t && t - first <= i64::MAX);
            }
        }
        lemma_with_events_from(m1, rest, first);
        assert(m.events + here + frames_from(rest, first) =~= m.events + frames_from(evs, first));
    }
}

/// Writing events one after another into a writer that holds no frame yet
/// adds, to what a reader finds, the CAN and CAN FD frames among them, in
/// order, with their timestamps taken relative to the first frame's, when
/// every frame is one the format holds and none lies before the first;
/// other events are skipped. (`BlfWriter::new` starts with no frame,
/// `write_event` is `with_event`, and `law_written_reads_back` reads the
/// events back once `finish` has written the buffer.)
pub proof fn law_events_written(m: WriterModel, evs: Seq<LogEvent>)
    requires
        m.first is None,
        forall|i: int| 0 <= i < evs.len() ==> blf_representable(#[trigger] evs[i]),
        first_frame_time(evs) matches Some(f) ==> times_after(evs, f),
    ensures
        with_events(m, evs).events == m.events + match first_frame_time(evs) {
            Some(f) => frames_from(evs, f),
            None => Seq::empty(),
        },
        finished(with_events(m, evs)).events == with_events(m, evs).events,
    decreases evs.len(),
{
    if evs.len() == 0 {
        assert(m.events + Seq::<EventModel>::empty() =~= m.events);
    } else {
        let e = evs[0];
        let rest = evs.drop_first();
        assert(blf_representable(e));
        assert forall|i: int| 0 <= i < rest.len() implies blf_representable(#[trigger] rest[i]) by {
            assert(rest[i] == evs[i + 1]);
        }
        match frame_time(e) {
            Some(t0) => {
                assert(first_frame_time(evs) == Some(t0));
                assert(times_after(evs, t0));
                assert(frame_time(evs[0]) matches Some(t) ==> t0 <= t && t - t0 <= i64::MAX);
                match e {
                    LogEvent::Can(f) => {
                        law_can_frame_reads_back(f, t0);
                    },
                    LogEvent::CanFd(f) => {
                        law_can_fd_frame_reads_back(f, t0);
                    },
                    _ => {},
                }
                let m1 = with_event(m, e);
                assert(m1.events == m.events + seq![at_time(e@, t0 - t0)]);
                assert(m1.first == Some(t0));
                assert(times_after(rest, t0)) by {
                    assert forall|i: int| 0 <= i < rest.len() implies (#[trigger] frame_time(
                        rest[i],
                    ) matches Some(t) ==> t0 <= t && t - t0 <= i64::MAX) by {
                        assert(rest[i] == evs[i + 1]);
                        assert(frame_time(evs[i + 1]) matches Some(t) ==> t0 <= t && t - t0
                            <= i64::MAX);
                    }
                }
                lemma_with_events_from(m1, rest, t0);
                assert(m.events + seq![at_time(e@, t0 - t0)] + frames_from(rest, t0) =~= m.events
                    + frames_from(evs, t0));
            },
            None => {
                assert(with_event(m, e) == m);
                assert(first_frame_time(evs) == first_frame_time(rest));
                match first_frame_time(rest) {
                    Some(f) => {
                        assert(times_after(rest, f)) by {
                            assert forall|i: int| 0 <= i < rest.len() implies (
                            #[trigger] frame_time(rest[i]) matches Some(t) ==> f <= t && t - f
                                <= i64::MAX) by {
                                assert(rest[i] == evs[i + 1]);
                                assert(frame_time(evs[i + 1]) matches Some(t) ==> f <= t && t - f
                                    <= i64::MAX);
                            }
                        }
                        assert(frames_from(evs, f) =~= frames_from(rest, f));
                    },
                    None => {},
                }
                law_events_written(m, rest);
            },
        }
    }
}

/// A writer that has finished after writing events one after another from
/// a state with no frame and no event (as `BlfWriter::new` starts) reads
/// back as the CAN and CAN FD frames among the events, in order, with their
/// timestamps taken relative to the first frame's, when every frame is one
/// the format holds and none lies before the first.
pub proof fn law_blf_writer_reads_back(w: BlfWriter, start: WriterModel, evs: Seq<LogEvent>)
    requires
        w.wf(),
        start.first is None,
        start.events.len() == 0,
        w@ == finished(with_events(start, evs)),
        forall|i: int| 0 <= i < evs.len() ==> blf_representable(#[trigger] evs[i]),
        first_frame_time(evs) matches Some(f) ==> times_after(evs, f),
    ensures
        spec_file_header(w@.written) == Ok::<(int, i64), crate::blf::codec::Fault>((144, 0)),
        stream_from(w@.written, 144, Seq::empty(), 0) == Ok::<
            (Seq<EventModel>, (int, Seq<u8>)),
            crate::blf::codec::Fault,
        >(
            (
                match first_frame_time(evs) {
                    Some(f) => frames_from(evs, f),
                    None => Seq::empty(),
                },
                (w@.written.len() as int, Seq::empty()),
            ),
        ),
{
    law_events_written(start, evs);
    assert(start.events + match first_frame_time(evs) {
        Some(f) => frames_from(evs, f),
        None => Seq::<EventModel>::empty(),
    } =~= match first_frame_time(evs) {
        Some(f) => frames_from(evs, f),
        None => Seq::<EventModel>::empty(),
    });
    law_written_reads_back(w);
}

} // verus!
