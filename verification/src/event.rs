//! Log-level events produced by the readers and consumed by the writers.
use vstd::prelude::*;


verus! {

/// Timestamp in nanoseconds from the log's time origin.
pub type TimestampNanos = i64;

/// Frame direction recorded in a log file.
#[derive(Debug, Clone, Copy, PartialEq, Eq, Structural)]
pub enum Direction {
    /// Received by the logging interface.
    Rx,
    /// Transmitted by the logging interface.
    Tx,
}

/// Logical channel identifier.
#[derive(Debug, Clone, PartialEq, Eq)]
pub enum Channel {
    /// Numeric CAN channel (zero-based).
    Number(u16),
    /// Named or prefixed channel, such as `L11` for LIN records.
    Named(String),
}

/// Inline capacity of the small-payload buffer in [`Payload`].
pub const PAYLOAD_INLINE_CAPACITY: usize = 8;

/// Owned payload bytes of a log event; up to eight bytes stay inline.
///
/// The bytes live in a `smallvec::SmallVec<[u8; 8]>` that verified code does
/// not look into; the functions below state what each operation does to the
/// bytes it holds.
#[verifier::external_body]
#[derive(Debug, PartialEq, Eq, Default)]
pub struct Payload {
    data: smallvec::SmallVec<[u8; 8]>,
}

/// The bytes that a payload holds.
pub uninterp spec fn payload_bytes(p: Payload) -> Seq<u8>;

impl View for Payload {
    type V = Seq<u8>;

    open spec fn view(&self) -> Seq<u8> {
        payload_bytes(*self)
    }
}

impl Payload {
    /// Copies bytes into an owned payload (`SmallVec::from_slice`).
    #[verifier::external_body]
    pub fn from_slice(data: &[u8]) -> (p: Self)
        ensures
            payload_bytes(p) == data@,
    {
        Payload { data: smallvec::SmallVec::from_slice(data) }
    }

    /// The payload as a byte slice (`SmallVec::as_slice`).
    #[verifier::external_body]
    pub fn as_slice(&self) -> (s: &[u8])
        ensures
            s@ == payload_bytes(*self),
    {
        self.data.as_slice()
    }

    /// The inline capacity of the storage (`SmallVec::inline_size`), the
    /// array length 8.
    #[verifier::external_body]
    fn inline_size(&self) -> (n: usize)
        ensures
            n == PAYLOAD_INLINE_CAPACITY,
    {
        self.data.inline_size()
    }

    /// The payload length in bytes.
    pub fn len(&self) -> (n: usize)
        ensures
            n == self@.len(),
    {
        self.as_slice().len()
    }

    /// Whether the payload is empty.
    pub fn is_empty(&self) -> (b: bool)
        ensures
            b == (self@.len() == 0),
    {
        self.as_slice().len() == 0
    }

    /// Whether the payload fits in the inline buffer (at most eight bytes).
    pub fn is_inline(&self) -> (b: bool)
        ensures
            b == (self@.len() <= PAYLOAD_INLINE_CAPACITY),
    {
        self.as_slice().len() <= self.inline_size()
    }

    /// Takes over a vector's bytes (`SmallVec::from_vec`).
    #[verifier::external_body]
    fn from_vec(data: Vec<u8>) -> (p: Self)
        ensures
            payload_bytes(p) == data@,
    {
        Payload { data: smallvec::SmallVec::from_vec(data) }
    }
}

impl Clone for Payload {
    fn clone(&self) -> (p: Self)
        ensures
            p@ == self@,
    {
        Payload::from_slice(self.as_slice())
    }
}

impl From<Vec<u8>> for Payload {
    fn from(data: Vec<u8>) -> (p: Self)
        ensures
            p@ == data@,
    {
        Payload::from_vec(data)
    }
}

impl vstd::std_specs::convert::FromSpecImpl<Vec<u8>> for Payload {
    /// The small vector is known only by its contents, so no single value is
    /// promised; `from` states what holds.
    open spec fn obeys_from_spec() -> bool {
        false
    }

    open spec fn from_spec(data: Vec<u8>) -> Self {
        choose|p: Payload| p@ == data@
    }
}

/// Classical CAN record from a log file.
#[derive(Debug, Clone, PartialEq, Eq)]
pub struct CanLogEvent {
    /// Timestamp in nanoseconds.
    pub timestamp_ns: TimestampNanos,
    /// Logical channel.
    pub channel: Channel,
    /// Arbitration identifier.
    pub arbitration_id: u32,
    /// Receive or transmit direction.
    pub direction: Direction,
    /// Whether the arbitration ID is 29-bit extended.
    pub extended_id: bool,
    /// Whether this is a remote frame.
    pub remote_frame: bool,
    /// Data bytes.
    pub data: Payload,
}

/// CAN FD record from a log file.
#[derive(Debug, Clone, PartialEq, Eq)]
pub struct CanFdLogEvent {
    /// Timestamp in nanoseconds.
    pub timestamp_ns: TimestampNanos,
    /// Logical channel.
    pub channel: Channel,
    /// Arbitration identifier.
    pub arbitration_id: u32,
    /// Receive or transmit direction.
    pub direction: Direction,
    /// Whether the arbitration ID is 29-bit extended.
    pub extended_id: bool,
    /// Whether bitrate switch was enabled.
    pub bitrate_switch: bool,
    /// Whether the error state indicator bit was set.
    pub error_state_indicator: bool,
    /// CAN FD DLC code as stored in the log.
    pub dlc_code: u8,
    /// Data bytes.
    pub data: Payload,
}

/// LIN record from a log file.
#[derive(Debug, Clone, PartialEq, Eq)]
pub struct LinLogEvent {
    /// Timestamp in nanoseconds.
    pub timestamp_ns: TimestampNanos,
    /// Logical LIN channel.
    pub channel: Channel,
    /// LIN frame identifier.
    pub frame_id: u8,
    /// Receive or transmit direction.
    pub direction: Direction,
    /// Data bytes.
    pub data: Payload,
    /// Optional checksum byte.
    pub checksum: Option<u8>,
}

/// Metadata event such as trigger block, comments, or measurement markers.
#[derive(Debug, Clone, PartialEq, Eq)]
pub struct MetadataEvent {
    /// Optional timestamp in nanoseconds.
    pub timestamp_ns: Option<TimestampNanos>,
    /// Metadata kind.
    pub kind: String,
    /// Metadata text.
    pub text: String,
}

/// Raw event preserved for roundtrip when the format is known but not decoded.
#[derive(Debug, Clone, PartialEq, Eq)]
pub struct RawEvent {
    /// Optional timestamp in nanoseconds.
    pub timestamp_ns: Option<TimestampNanos>,
    /// Raw text.
    pub raw: String,
}

/// Unknown event reserved for future bus formats or vendor-specific records.
#[derive(Debug, Clone, PartialEq, Eq)]
pub struct UnknownEvent {
    /// Optional timestamp in nanoseconds.
    pub timestamp_ns: Option<TimestampNanos>,
    /// Best-effort event kind.
    pub kind: String,
    /// The raw record text.
    pub raw: String,
}

/// Streaming log event.
#[derive(Debug, Clone, PartialEq, Eq)]
#[non_exhaustive]
pub enum LogEvent {
    /// Classical CAN frame.
    Can(CanLogEvent),
    /// CAN FD frame.
    CanFd(CanFdLogEvent),
    /// LIN frame.
    Lin(LinLogEvent),
    /// Metadata record.
    Metadata(MetadataEvent),
    /// Raw record.
    Raw(RawEvent),
    /// Unknown record for future extension.
    Unknown(UnknownEvent),
}


/// The mathematical content of a channel.
pub ghost enum ChannelModel {
    /// Numeric channel.
    Number(u16),
    /// Named channel.
    Named(Seq<char>),
}

impl View for Channel {
    type V = ChannelModel;

    open spec fn view(&self) -> ChannelModel {
        match self {
            Channel::Number(n) => ChannelModel::Number(*n),
            Channel::Named(s) => ChannelModel::Named(s@),
        }
    }
}

/// The mathematical content of a log event: every field, with payloads as
/// byte sequences and strings as character sequences.
#[allow(inconsistent_fields)]
pub ghost enum EventModel {
    /// Classical CAN frame.
    Can {
        timestamp_ns: int,
        channel: ChannelModel,
        arbitration_id: u32,
        direction: Direction,
        extended_id: bool,
        remote_frame: bool,
        data: Seq<u8>,
    },
    /// CAN FD frame.
    CanFd {
        timestamp_ns: int,
        channel: ChannelModel,
        arbitration_id: u32,
        direction: Direction,
        extended_id: bool,
        bitrate_switch: bool,
        error_state_indicator: bool,
        dlc_code: u8,
        data: Seq<u8>,
    },
    /// LIN frame.
    Lin {
        timestamp_ns: int,
        channel: ChannelModel,
        frame_id: u8,
        direction: Direction,
        data: Seq<u8>,
        checksum: Option<u8>,
    },
    /// Metadata record.
    Metadata { timestamp_ns: Option<int>, kind: Seq<char>, text: Seq<char> },
    /// Raw record.
    Raw { timestamp_ns: Option<int>, raw: Seq<char> },
    /// Unknown record.
    Unknown { timestamp_ns: Option<int>, kind: Seq<char>, raw: Seq<char> },
}

/// An optional timestamp as an optional integer.
pub open spec fn opt_ts(t: Option<i64>) -> Option<int> {
    match t {
        Some(v) => Some(v as int),
        None => None,
    }
}

impl View for CanLogEvent {
    type V = EventModel;

    open spec fn view(&self) -> EventModel {
        EventModel::Can {
            timestamp_ns: self.timestamp_ns as int,
            channel: self.channel@,
            arbitration_id: self.arbitration_id,
            direction: self.direction,
            extended_id: self.extended_id,
            remote_frame: self.remote_frame,
            data: self.data@,
        }
    }
}

impl View for CanFdLogEvent {
    type V = EventModel;

    open spec fn view(&self) -> EventModel {
        EventModel::CanFd {
            timestamp_ns: self.timestamp_ns as int,
            channel: self.channel@,
            arbitration_id: self.arbitration_id,
            direction: self.direction,
            extended_id: self.extended_id,
            bitrate_switch: self.bitrate_switch,
            error_state_indicator: self.error_state_indicator,
            dlc_code: self.dlc_code,
            data: self.data@,
        }
    }
}

impl View for LinLogEvent {
    type V = EventModel;

    open spec fn view(&self) -> EventModel {
        EventModel::Lin {
            timestamp_ns: self.timestamp_ns as int,
            channel: self.channel@,
            frame_id: self.frame_id,
            direction: self.direction,
            data: self.data@,
            checksum: self.checksum,
        }
    }
}

impl View for LogEvent {
    type V = EventModel;

    open spec fn view(&self) -> EventModel {
        match self {
            LogEvent::Can(e) => e@,
            LogEvent::CanFd(e) => e@,
            LogEvent::Lin(e) => e@,
            LogEvent::Metadata(e) => EventModel::Metadata {
                timestamp_ns: opt_ts(e.timestamp_ns),
                kind: e.kind@,
                text: e.text@,
            },
            LogEvent::Raw(e) => EventModel::Raw { timestamp_ns: opt_ts(e.timestamp_ns), raw: e.raw@ },
            LogEvent::Unknown(e) => EventModel::Unknown {
                timestamp_ns: opt_ts(e.timestamp_ns),
                kind: e.kind@,
                raw: e.raw@,
            },
        }
    }
}

/// The models of a list of events.
pub open spec fn models(events: Seq<LogEvent>) -> Seq<EventModel> {
    events.map_values(|e: LogEvent| e@)
}

/// Whether an event model is a CAN or CAN FD frame.
pub open spec fn is_can_or_fd(e: EventModel) -> bool {
    e is Can || e is CanFd
}

/// `x` modulo `2^usize::BITS`, as a count that wraps around.
pub open spec fn usize_wrap(x: int) -> usize {
    (x % (usize::MAX as int + 1)) as usize
}

/// Every CAN and CAN FD frame among the events holds at most `usize::MAX`
/// payload bytes (as every payload in memory does).
pub open spec fn frames_fit(events: Seq<EventModel>) -> bool {
    forall|i: int|
        0 <= i < events.len() ==> match #[trigger] events[i] {
            EventModel::Can { data, .. } => data.len() <= usize::MAX,
            EventModel::CanFd { data, .. } => data.len() <= usize::MAX,
            _ => true,
        }
}

/// Adding one more to a wrapped count wraps the sum.
pub proof fn lemma_wrap_add(a: int, b: int)
    requires
        a >= 0,
        b >= 0,
    ensures
        usize_wrap(usize_wrap(a) + b) == usize_wrap(a + b),
{
    let m = usize::MAX as int + 1;
    vstd::arithmetic::div_mod::lemma_mod_bound(a, m);
    vstd::arithmetic::div_mod::lemma_add_mod_noop_right(b, a, m);
    assert(usize_wrap(a) as int == a % m);
}

/// `wrapping_add` is the sum wrapped.
pub proof fn lemma_wrapping_add(x: usize, y: usize)
    ensures
        x.wrapping_add(y) == usize_wrap(x + y),
{
    let m = usize::MAX as int + 1;
    if x + y > usize::MAX {
        vstd::arithmetic::div_mod::lemma_fundamental_div_mod_converse(x + y, m, 1, x + y - m);
    } else {
        vstd::arithmetic::div_mod::lemma_fundamental_div_mod_converse(x + y, m, 0, x + y);
    }
}

/// How many of the events are classical CAN frames.
pub open spec fn classic_count(events: Seq<EventModel>) -> nat
    decreases events.len(),
{
    if events.len() == 0 {
        0
    } else {
        (if events[0] is Can {
            1nat
        } else {
            0nat
        }) + classic_count(events.drop_first())
    }
}

/// How many of the events are CAN FD frames.
pub open spec fn fd_count(events: Seq<EventModel>) -> nat
    decreases events.len(),
{
    if events.len() == 0 {
        0
    } else {
        (if events[0] is CanFd {
            1nat
        } else {
            0nat
        }) + fd_count(events.drop_first())
    }
}

/// The payload lengths of the CAN and CAN FD frames among the events, summed.
pub open spec fn frame_bytes(events: Seq<EventModel>) -> nat
    decreases events.len(),
{
    if events.len() == 0 {
        0
    } else {
        (match events[0] {
            EventModel::Can { data, .. } => data.len(),
            EventModel::CanFd { data, .. } => data.len(),
            _ => 0nat,
        }) + frame_bytes(events.drop_first())
    }
}

} // verus!
