//! Low-level CAN frames as they appear on the wire or from hardware, and their
//! conversion to and from [`CanMessage`].
use vstd::prelude::*;

use crate::external::{bytes_as_slice, bytes_copy_from_slice, bytes_new, bytes_view};
use crate::message::flags::{
    flag_set, flags_byte, lemma_flags_byte_bits, lemma_flags_byte_of_bits, make_flags,
    BITRATE_SWITCH, ERROR_FRAME, ERROR_STATE_INDICATOR, EXTENDED_ID, FD_FRAME, REMOTE_FRAME,
    RX_FRAME, XL_FRAME,
};
use crate::message::{padded64, CanMessage};

verus! {

/// Bit flags for frame metadata.
#[derive(Debug, Clone, Copy, PartialEq, Eq, Structural, Default)]
pub struct FrameFlags {
    /// Extended (29-bit) identifier.
    pub extended: bool,
    /// Remote transmission request.
    pub remote: bool,
    /// Error frame.
    pub error: bool,
    /// CAN FD frame.
    pub fd: bool,
    /// Bitrate switch (CAN FD only).
    pub brs: bool,
    /// Error state indicator (CAN FD only).
    pub esi: bool,
    /// CAN XL frame.
    pub xl: bool,
}

/// The flags that a packed byte stands for (the received bit is not a frame flag).
pub open spec fn flags_of_byte(byte: u8) -> FrameFlags {
    FrameFlags {
        extended: flag_set(byte, EXTENDED_ID),
        remote: flag_set(byte, REMOTE_FRAME),
        error: flag_set(byte, ERROR_FRAME),
        fd: flag_set(byte, FD_FRAME),
        brs: flag_set(byte, BITRATE_SWITCH),
        esi: flag_set(byte, ERROR_STATE_INDICATOR),
        xl: flag_set(byte, XL_FRAME),
    }
}

/// The packed byte of a set of frame flags, with the received bit clear.
pub open spec fn byte_of_flags(f: FrameFlags) -> u8 {
    flags_byte(f.extended, f.remote, f.error, f.fd, false, f.brs, f.esi, f.xl)
}

impl FrameFlags {
    /// Creates flags from a packed byte (same layout as `CanMessage::flags`).
    pub fn from_byte(byte: u8) -> (f: Self)
        ensures
            f == flags_of_byte(byte),
    {
        FrameFlags {
            extended: byte & EXTENDED_ID != 0,
            remote: byte & REMOTE_FRAME != 0,
            error: byte & ERROR_FRAME != 0,
            fd: byte & FD_FRAME != 0,
            brs: byte & BITRATE_SWITCH != 0,
            esi: byte & ERROR_STATE_INDICATOR != 0,
            xl: byte & XL_FRAME != 0,
        }
    }

    /// Packs the flags into a single byte (same layout as `CanMessage::flags`).
    pub fn to_byte(&self) -> (b: u8)
        ensures
            b == byte_of_flags(*self),
    {
        make_flags(self.extended, self.remote, self.error, self.fd, false, self.brs, self.esi, self.xl)
    }
}

/// Unpacking the packed byte of a set of flags gives the same flags back.
pub proof fn law_flags_unpack_pack(f: FrameFlags)
    ensures
        flags_of_byte(byte_of_flags(f)) == f,
{
    lemma_flags_byte_bits(f.extended, f.remote, f.error, f.fd, false, f.brs, f.esi, f.xl);
}

/// Packing the flags unpacked from a byte gives the byte back, without its
/// received bit.
pub proof fn law_flags_pack_unpack(byte: u8)
    ensures
        byte_of_flags(flags_of_byte(byte)) == byte & !RX_FRAME,
{
    lemma_flags_byte_of_bits(byte);
    let cleared = byte & !RX_FRAME;
    lemma_flags_byte_of_bits(cleared);
    assert(
        (cleared & 0x80 != 0) == (byte & 0x80 != 0) && (cleared & 0x40 != 0) == (byte & 0x40 != 0)
            && (cleared & 0x20 != 0) == (byte & 0x20 != 0) && (cleared & 0x10 != 0) == (byte & 0x10
            != 0) && (cleared & 0x08 == 0) && (cleared & 0x04 != 0) == (byte & 0x04 != 0) && (cleared
            & 0x02 != 0) == (byte & 0x02 != 0) && (cleared & 0x01 != 0) == (byte & 0x01 != 0)
    ) by (bit_vector)
        requires
            cleared == byte & !0x08u8,
    ;
}

/// A raw CAN frame as it would appear on the wire or from hardware.
#[derive(Debug, Clone, PartialEq, Eq)]
pub struct CanFrame {
    /// CAN identifier (raw, without mask).
    pub can_id: u32,
    /// Data payload.
    pub data: bytes::Bytes,
    /// Frame flags.
    pub flags: FrameFlags,
    /// Timestamp in nanoseconds.
    pub timestamp: u64,
    /// Channel/interface identifier.
    pub channel: u16,
}

/// All flags clear.
pub open spec fn no_flags() -> FrameFlags {
    FrameFlags {
        extended: false,
        remote: false,
        error: false,
        fd: false,
        brs: false,
        esi: false,
        xl: false,
    }
}

impl CanFrame {
    /// Creates a CAN 2.0 data frame with timestamp and channel 0.
    pub fn new_data(can_id: u32, data: bytes::Bytes, extended: bool) -> (f: Self)
        ensures
            f.can_id == can_id,
            bytes_view(f.data) == bytes_view(data),
            f.flags == (FrameFlags { extended, ..no_flags() }),
            f.timestamp == 0,
            f.channel == 0,
    {
        CanFrame {
            can_id,
            data,
            flags: FrameFlags {
                extended,
                remote: false,
                error: false,
                fd: false,
                brs: false,
                esi: false,
                xl: false,
            },
            timestamp: 0,
            channel: 0,
        }
    }

    /// Creates a CAN FD data frame with timestamp and channel 0.
    pub fn new_fd(can_id: u32, data: bytes::Bytes, extended: bool, brs: bool) -> (f: Self)
        ensures
            f.can_id == can_id,
            bytes_view(f.data) == bytes_view(data),
            f.flags == (FrameFlags { extended, fd: true, brs, ..no_flags() }),
            f.timestamp == 0,
            f.channel == 0,
    {
        CanFrame {
            can_id,
            data,
            flags: FrameFlags { extended, remote: false, error: false, fd: true, brs, esi: false, xl: false },
            timestamp: 0,
            channel: 0,
        }
    }

    /// Creates a CAN XL data frame (extended identifier, FD and XL set) with
    /// timestamp and channel 0.
    pub fn new_xl(can_id: u32, data: bytes::Bytes) -> (f: Self)
        ensures
            f.can_id == can_id,
            bytes_view(f.data) == bytes_view(data),
            f.flags == (FrameFlags { extended: true, fd: true, xl: true, ..no_flags() }),
            f.timestamp == 0,
            f.channel == 0,
    {
        CanFrame {
            can_id,
            data,
            flags: FrameFlags {
                extended: true,
                remote: false,
                error: false,
                fd: true,
                brs: false,
                esi: false,
                xl: true,
            },
            timestamp: 0,
            channel: 0,
        }
    }

    /// Creates a remote frame with an empty payload; the requested length is
    /// not carried by the frame.
    pub fn new_remote(can_id: u32, _dlc: u8, extended: bool) -> (f: Self)
        ensures
            f.can_id == can_id,
            bytes_view(f.data) == Seq::<u8>::empty(),
            f.flags == (FrameFlags { extended, remote: true, ..no_flags() }),
            f.timestamp == 0,
            f.channel == 0,
    {
        CanFrame {
            can_id,
            data: bytes_new(),
            flags: FrameFlags {
                extended,
                remote: true,
                error: false,
                fd: false,
                brs: false,
                esi: false,
                xl: false,
            },
            timestamp: 0,
            channel: 0,
        }
    }

    /// Sets the timestamp.
    pub fn with_timestamp(self, ts: u64) -> (f: Self)
        ensures
            f == (CanFrame { timestamp: ts, ..self }),
    {
        let mut f = self;
        f.timestamp = ts;
        f
    }

    /// Sets the channel.
    pub fn with_channel(self, channel: u16) -> (f: Self)
        ensures
            f == (CanFrame { channel, ..self }),
    {
        let mut f = self;
        f.channel = channel;
        f
    }
}

/// `m` is the message that a frame converts to: at most the first 64 payload
/// bytes, the frame's flags plus the received bit.
pub open spec fn is_message_of_frame(frame: CanFrame, m: CanMessage) -> bool {
    let d = bytes_view(frame.data);
    let n = if d.len() <= 64 { d.len() } else { 64 };
    &&& m.timestamp == frame.timestamp
    &&& m.arbitration_id == frame.can_id
    &&& m.data@ == padded64(d.subrange(0, n as int))
    &&& m.dlc == n as u8
    &&& m.flags == byte_of_flags(frame.flags) | RX_FRAME
    &&& m.channel == frame.channel
}

/// `f` is the frame that a message converts to: its meaningful payload and
/// the frame flags of its flags byte.
pub open spec fn is_frame_of_message(msg: CanMessage, f: CanFrame) -> bool {
    &&& f.can_id == msg.arbitration_id
    &&& bytes_view(f.data) == msg.spec_data()
    &&& f.flags == flags_of_byte(msg.flags)
    &&& f.timestamp == msg.timestamp
    &&& f.channel == msg.channel
}

impl From<CanFrame> for CanMessage {
    fn from(frame: CanFrame) -> (m: Self) {
        let d = bytes_as_slice(&frame.data);
        let n: usize = if d.len() <= 64 { d.len() } else { 64 };
        let data = crate::message::fill_payload(&d[0..n]);
        let flags = frame.flags.to_byte() | RX_FRAME;
        let m = CanMessage {
            timestamp: frame.timestamp,
            arbitration_id: frame.can_id,
            data,
            dlc: n as u8,
            flags,
            channel: frame.channel,
        };
        proof {
            assert(is_message_of_frame(frame, m));
            let c = choose|x: CanMessage| is_message_of_frame(frame, x);
            assert(c.data@ =~= m.data@);
            assert(c.data =~= m.data);
        }
        m
    }
}

impl vstd::std_specs::convert::FromSpecImpl<CanFrame> for CanMessage {
    open spec fn obeys_from_spec() -> bool {
        true
    }

    open spec fn from_spec(frame: CanFrame) -> Self {
        choose|m: CanMessage| is_message_of_frame(frame, m)
    }
}

impl From<CanMessage> for CanFrame {
    fn from(msg: CanMessage) -> (f: Self)
        ensures
            is_frame_of_message(msg, f),
    {
        let data = bytes_copy_from_slice(msg.data_slice());
        let f = CanFrame {
            can_id: msg.arbitration_id,
            data,
            flags: FrameFlags::from_byte(msg.flags),
            timestamp: msg.timestamp,
            channel: msg.channel,
        };
        proof {
            assert(is_frame_of_message(msg, f));
        }
        f
    }
}

impl vstd::std_specs::convert::FromSpecImpl<CanMessage> for CanFrame {
    /// The frame's payload buffer is a fresh `Bytes`, known only by its
    /// contents, so no single value is promised; `from` states what holds.
    open spec fn obeys_from_spec() -> bool {
        false
    }

    open spec fn from_spec(msg: CanMessage) -> Self {
        choose|f: CanFrame| is_frame_of_message(msg, f)
    }
}


proof fn lemma_rx_bit_is_not_a_frame_flag(f: FrameFlags)
    ensures
        flags_of_byte(byte_of_flags(f) | RX_FRAME) == f,
        flag_set(byte_of_flags(f) | RX_FRAME, RX_FRAME),
{
    let b = byte_of_flags(f);
    lemma_flags_byte_bits(f.extended, f.remote, f.error, f.fd, false, f.brs, f.esi, f.xl);
    let c = b | RX_FRAME;
    assert(
        (c & 0x80 != 0) == (b & 0x80 != 0) && (c & 0x40 != 0) == (b & 0x40 != 0) && (c & 0x20 != 0)
            == (b & 0x20 != 0) && (c & 0x10 != 0) == (b & 0x10 != 0) && (c & 0x08 != 0) && (c & 0x04
            != 0) == (b & 0x04 != 0) && (c & 0x02 != 0) == (b & 0x02 != 0) && (c & 0x01 != 0) == (b
            & 0x01 != 0)
    ) by (bit_vector)
        requires
            c == b | 0x08u8,
    ;
}

/// Converting a frame of at most 64 payload bytes to a message and back keeps
/// its identifier, payload, flags, timestamp and channel.
pub proof fn law_frame_message_frame(frame: CanFrame, msg: CanMessage, back: CanFrame)
    requires
        bytes_view(frame.data).len() <= 64,
        is_message_of_frame(frame, msg),
        is_frame_of_message(msg, back),
    ensures
        back.can_id == frame.can_id,
        bytes_view(back.data) == bytes_view(frame.data),
        back.flags == frame.flags,
        back.timestamp == frame.timestamp,
        back.channel == frame.channel,
{
    lemma_rx_bit_is_not_a_frame_flag(frame.flags);
    let d = bytes_view(frame.data);
    assert(msg.spec_data() =~= d);
}

/// Converting a received message of at most 64 payload bytes to a frame and
/// back gives an equal message (bytes past the DLC are zeroed).
pub proof fn law_message_frame_message(msg: CanMessage, frame: CanFrame, back: CanMessage)
    requires
        msg.dlc <= 64,
        flag_set(msg.flags, RX_FRAME),
        is_frame_of_message(msg, frame),
        is_message_of_frame(frame, back),
    ensures
        crate::message::messages_equal(msg, back),
{
    law_flags_pack_unpack(msg.flags);
    lemma_flags_byte_of_bits(msg.flags);
    let b = msg.flags;
    assert((b & !0x08u8) | 0x08u8 == b) by (bit_vector)
        requires
            b & 0x08 != 0,
    ;
    assert(back.spec_data() =~= msg.spec_data());
}

} // verus!
