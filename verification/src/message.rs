//! High-level CAN message type.
//!
//! A [`CanMessage`] stores up to 64 payload bytes inline (enough for CAN FD);
//! [`CanMessageXL`] keeps the full CAN XL payload in a `bytes::Bytes`.
use vstd::prelude::*;
use vstd::string::*;

use crate::error::CanError;
use crate::external::{bytes_as_slice, bytes_view, system_time_nanos};
use crate::protocol::CanProtocol;
use crate::text::{
    ascii_string, chars_of, dec_digits, fixed6, hex_join, hex_padded, is_ascii_bytes,
    lemma_dec_digits_ascii, lemma_fixed6_ascii, lemma_hex_join_ascii, lemma_pad_left_ascii, pad_left,
    push_decimal, push_fixed6, push_hex_join, push_hex_padded, push_padded,
};

pub mod flags;

use flags::{
    flags_byte, flag_set, make_flags, BITRATE_SWITCH, ERROR_FRAME, ERROR_STATE_INDICATOR, EXTENDED_ID,
    FD_FRAME, REMOTE_FRAME, RX_FRAME, XL_FRAME,
};

verus! {

/// A CAN message with inline data for CAN 2.0 and CAN FD.
#[derive(Debug)]
pub struct CanMessage {
    /// Timestamp in nanoseconds.
    pub timestamp: u64,
    /// CAN arbitration identifier (11-bit or 29-bit depending on the extended flag).
    pub arbitration_id: u32,
    /// Data payload. The first `dlc` bytes are valid.
    pub data: [u8; 64],
    /// Data length code (actual payload length in bytes).
    pub dlc: u8,
    /// Bit flags (see [`flags`]).
    pub flags: u8,
    /// Channel identifier for multi-bus scenarios.
    pub channel: u16,
}

/// `data` followed by zeros up to 64 bytes.
pub open spec fn padded64(data: Seq<u8>) -> Seq<u8> {
    data + Seq::new((64 - data.len()) as nat, |i: int| 0u8)
}

/// The number of meaningful payload bytes of a message: its DLC, at most 64.
pub open spec fn effective_len(dlc: u8) -> int {
    if dlc <= 64 {
        dlc as int
    } else {
        64
    }
}

/// The text of an operation error.
pub open spec fn is_operation_error(e: CanError, text: Seq<char>) -> bool {
    e matches CanError::OperationError { message } && message@ == text
}

/// Why a message is inconsistent, in the order in which [`CanMessage::validate`]
/// checks it; `None` for a consistent message.
pub open spec fn validation_error(m: CanMessage) -> Option<Seq<char>> {
    if flag_set(m.flags, REMOTE_FRAME) && flag_set(m.flags, ERROR_FRAME) {
        Some("a message cannot be a remote and an error frame at the same time"@)
    } else if flag_set(m.flags, REMOTE_FRAME) && flag_set(m.flags, FD_FRAME) {
        Some("CAN FD does not support remote frames"@)
    } else if flag_set(m.flags, EXTENDED_ID) && m.arbitration_id >= 0x2000_0000 {
        Some("extended arbitration IDs must be less than 2^29"@)
    } else if !flag_set(m.flags, EXTENDED_ID) && m.arbitration_id >= 0x800 {
        Some("standard arbitration IDs must be less than 2^11"@)
    } else if m.dlc > (if flag_set(m.flags, FD_FRAME) { 64u8 } else { 8u8 }) {
        Some(
            "DLC "@ + chars_of(dec_digits(m.dlc as nat)) + " exceeds maximum "@ + chars_of(
                dec_digits(if flag_set(m.flags, FD_FRAME) { 64 } else { 8 }),
            ) + " for this frame type"@,
        )
    } else if !flag_set(m.flags, FD_FRAME) && flag_set(m.flags, BITRATE_SWITCH) {
        Some("bitrate switch is only allowed for CAN FD frames"@)
    } else if !flag_set(m.flags, FD_FRAME) && flag_set(m.flags, ERROR_STATE_INDICATOR) {
        Some("error state indicator is only allowed for CAN FD frames"@)
    } else {
        None
    }
}

/// Builds an operation error whose text is `prefix`, the decimal digits of
/// `n`, then `suffix`.
fn operation_error_with_number(prefix: &str, n: u64, suffix: &str) -> (e: CanError)
    ensures
        is_operation_error(e, prefix@ + chars_of(dec_digits(n as nat)) + suffix@),
{
    let mut digits: Vec<u8> = Vec::new();
    push_decimal(&mut digits, n);
    proof {
        lemma_dec_digits_ascii(n as nat);
        assert(digits@ =~= dec_digits(n as nat));
    }
    let number = ascii_string(digits.as_slice());
    let text = String::from_str(prefix);
    let text = text.concat(number.as_str());
    let text = text.concat(suffix);
    CanError::OperationError { message: text }
}

/// Copies up to 64 bytes into a zero-filled 64-byte array.
pub(crate) fn fill_payload(data: &[u8]) -> (buf: [u8; 64])
    requires
        data.len() <= 64,
    ensures
        buf@ == padded64(data@),
{
    let mut buf = [0u8; 64];
    let mut i: usize = 0;
    while i < data.len()
        invariant
            i <= data.len() <= 64,
            buf@.len() == 64,
            forall|k: int| 0 <= k < i ==> buf@[k] == data@[k],
            forall|k: int| i <= k < 64 ==> buf@[k] == 0,
        decreases data.len() - i,
    {
        buf[i] = data[i];
        i = i + 1;
    }
    assert(buf@ =~= padded64(data@));
    buf
}

/// Current time in nanoseconds, used to stamp newly built messages.
fn now_nanos() -> u64 {
    system_time_nanos()
}

impl CanMessage {
    /// Whether this message uses an extended (29-bit) identifier.
    pub open spec fn spec_is_extended_id(&self) -> bool {
        flag_set(self.flags, EXTENDED_ID)
    }

    /// The meaningful payload bytes.
    pub open spec fn spec_data(&self) -> Seq<u8> {
        self.data@.subrange(0, effective_len(self.dlc))
    }

    /// The fields a new message is built with, all but the timestamp.
    pub open spec fn built(&self, id: u32, payload: Seq<u8>, dlc: u8, flags: u8) -> bool {
        &&& self.arbitration_id == id
        &&& self.data@ == padded64(payload)
        &&& self.dlc == dlc
        &&& self.flags == flags
        &&& self.channel == 0
    }

    /// Creates a new CAN 2.0 data frame, marked as received.
    ///
    /// Fails when the payload holds more than 8 bytes.
    pub fn new(arbitration_id: u32, data: &[u8], is_extended_id: bool) -> (r: Result<Self, CanError>)
        requires
            data.len() <= 8 || data.len() % 256 > 8,
        ensures
            r is Ok <==> data.len() <= 8,
            r matches Ok(m) ==> m.built(
                arbitration_id,
                data@,
                data.len() as u8,
                flags_byte(is_extended_id, false, false, false, true, false, false, false),
            ),
            r matches Err(e) ==> is_operation_error(
                e,
                "CAN 2.0 data length must be ≤ 8, got "@ + chars_of(dec_digits((data.len() % 256) as nat)),
            ),
    {
        let dlc = (data.len() % 256) as u8;
        if dlc > 8 {
            let e = operation_error_with_number("CAN 2.0 data length must be ≤ 8, got ", dlc as u64, "");
            proof {
                reveal_strlit("");
                assert("CAN 2.0 data length must be ≤ 8, got "@ + chars_of(dec_digits(dlc as nat)) + ""@ =~= "CAN 2.0 data length must be ≤ 8, got "@ + chars_of(dec_digits(dlc as nat)));
            }
            return Err(e);
        }
        let buf = fill_payload(data);
        let flags = make_flags(is_extended_id, false, false, false, true, false, false, false);
        Ok(CanMessage { timestamp: now_nanos(), arbitration_id, data: buf, dlc, flags, channel: 0 })
    }

    /// Creates a new CAN FD data frame, marked as received.
    ///
    /// Fails when the payload holds more than 64 bytes.
    pub fn new_fd(arbitration_id: u32, data: &[u8], is_extended_id: bool, bitrate_switch: bool) -> (r: Result<Self, CanError>)
        requires
            data.len() <= 64 || data.len() % 256 > 64,
        ensures
            r is Ok <==> data.len() <= 64,
            r matches Ok(m) ==> m.built(
                arbitration_id,
                data@,
                data.len() as u8,
                flags_byte(is_extended_id, false, false, true, true, bitrate_switch, false, false),
            ),
            r matches Err(e) ==> is_operation_error(
                e,
                "CAN FD data length must be ≤ 64, got "@ + chars_of(dec_digits((data.len() % 256) as nat)),
            ),
    {
        let dlc = (data.len() % 256) as u8;
        if dlc > 64 {
            let e = operation_error_with_number("CAN FD data length must be ≤ 64, got ", dlc as u64, "");
            proof {
                reveal_strlit("");
                assert("CAN FD data length must be ≤ 64, got "@ + chars_of(dec_digits(dlc as nat)) + ""@ =~= "CAN FD data length must be ≤ 64, got "@ + chars_of(dec_digits(dlc as nat)));
            }
            return Err(e);
        }
        let buf = fill_payload(data);
        let flags = make_flags(is_extended_id, false, false, true, true, bitrate_switch, false, false);
        Ok(CanMessage { timestamp: now_nanos(), arbitration_id, data: buf, dlc, flags, channel: 0 })
    }

    /// Creates a new remote frame (RTR) requesting `dlc` bytes, marked as received.
    ///
    /// Fails when `dlc` exceeds 8.
    pub fn new_remote(arbitration_id: u32, dlc: u8, is_extended_id: bool) -> (r: Result<Self, CanError>)
        ensures
            r is Ok <==> dlc <= 8,
            r matches Ok(m) ==> m.built(
                arbitration_id,
                Seq::empty(),
                dlc,
                flags_byte(is_extended_id, true, false, false, true, false, false, false),
            ),
            r matches Err(e) ==> is_operation_error(
                e,
                "Remote frame DLC must be ≤ 8, got "@ + chars_of(dec_digits(dlc as nat)),
            ),
    {
        if dlc > 8 {
            let e = operation_error_with_number("Remote frame DLC must be ≤ 8, got ", dlc as u64, "");
            proof {
                reveal_strlit("");
                assert("Remote frame DLC must be ≤ 8, got "@ + chars_of(dec_digits(dlc as nat)) + ""@ =~= "Remote frame DLC must be ≤ 8, got "@ + chars_of(dec_digits(dlc as nat)));
            }
            return Err(e);
        }
        let flags = make_flags(is_extended_id, true, false, false, true, false, false, false);
        let data = [0u8; 64];
        assert(data@ =~= padded64(Seq::empty()));
        Ok(CanMessage { timestamp: now_nanos(), arbitration_id, data, dlc, flags, channel: 0 })
    }

    /// Creates a new error frame, marked as received.
    pub fn new_error() -> (m: Self)
        ensures
            m.built(0, Seq::empty(), 0, flags_byte(false, false, true, false, true, false, false, false)),
    {
        let flags = make_flags(false, false, true, false, true, false, false, false);
        let data = [0u8; 64];
        assert(data@ =~= padded64(Seq::empty()));
        CanMessage { timestamp: now_nanos(), arbitration_id: 0, data, dlc: 0, flags, channel: 0 }
    }

    /// Whether this message uses an extended (29-bit) identifier.
    pub fn is_extended_id(&self) -> (b: bool)
        ensures
            b == flag_set(self.flags, EXTENDED_ID),
    {
        self.flags & EXTENDED_ID != 0
    }

    /// Whether this is a remote transmission request frame.
    pub fn is_remote_frame(&self) -> (b: bool)
        ensures
            b == flag_set(self.flags, REMOTE_FRAME),
    {
        self.flags & REMOTE_FRAME != 0
    }

    /// Whether this is an error frame.
    pub fn is_error_frame(&self) -> (b: bool)
        ensures
            b == flag_set(self.flags, ERROR_FRAME),
    {
        self.flags & ERROR_FRAME != 0
    }

    /// Whether this is a CAN FD frame.
    pub fn is_fd(&self) -> (b: bool)
        ensures
            b == flag_set(self.flags, FD_FRAME),
    {
        self.flags & FD_FRAME != 0
    }

    /// Whether this is a received (as opposed to transmitted) frame.
    pub fn is_rx(&self) -> (b: bool)
        ensures
            b == flag_set(self.flags, RX_FRAME),
    {
        self.flags & RX_FRAME != 0
    }

    /// Whether bitrate switching is enabled (CAN FD only).
    pub fn bitrate_switch(&self) -> (b: bool)
        ensures
            b == flag_set(self.flags, BITRATE_SWITCH),
    {
        self.flags & BITRATE_SWITCH != 0
    }

    /// Error state indicator (CAN FD only).
    pub fn error_state_indicator(&self) -> (b: bool)
        ensures
            b == flag_set(self.flags, ERROR_STATE_INDICATOR),
    {
        self.flags & ERROR_STATE_INDICATOR != 0
    }

    /// Whether this is a CAN XL frame.
    pub fn is_xl(&self) -> (b: bool)
        ensures
            b == flag_set(self.flags, XL_FRAME),
    {
        self.flags & XL_FRAME != 0
    }

    /// Sets the timestamp to the current time.
    pub fn with_timestamp_now(self) -> (m: Self)
        ensures
            m.arbitration_id == self.arbitration_id,
            m.data == self.data,
            m.dlc == self.dlc,
            m.flags == self.flags,
            m.channel == self.channel,
    {
        let mut m = self;
        m.timestamp = now_nanos();
        m
    }

    /// Sets the channel identifier.
    pub fn with_channel(self, channel: u16) -> (m: Self)
        ensures
            m == (CanMessage { channel, ..self }),
    {
        let mut m = self;
        m.channel = channel;
        m
    }

    /// Marks this message as transmitted (rather than received).
    pub fn as_tx(self) -> (m: Self)
        ensures
            m == (CanMessage { flags: self.flags & !RX_FRAME, ..self }),
    {
        let mut m = self;
        m.flags = m.flags & !RX_FRAME;
        m
    }

    /// Sets or clears the bitrate switch flag.
    pub fn with_bitrate_switch(self, brs: bool) -> (m: Self)
        ensures
            m == (CanMessage {
                flags: if brs { self.flags | BITRATE_SWITCH } else { self.flags & !BITRATE_SWITCH },
                ..self
            }),
    {
        let mut m = self;
        if brs {
            m.flags = m.flags | BITRATE_SWITCH;
        } else {
            m.flags = m.flags & !BITRATE_SWITCH;
        }
        m
    }

    /// Sets or clears the error state indicator flag.
    pub fn with_error_state_indicator(self, esi: bool) -> (m: Self)
        ensures
            m == (CanMessage {
                flags: if esi {
                    self.flags | ERROR_STATE_INDICATOR
                } else {
                    self.flags & !ERROR_STATE_INDICATOR
                },
                ..self
            }),
    {
        let mut m = self;
        if esi {
            m.flags = m.flags | ERROR_STATE_INDICATOR;
        } else {
            m.flags = m.flags & !ERROR_STATE_INDICATOR;
        }
        m
    }

    /// The effective data: the first `dlc` bytes (at most 64).
    pub fn data_slice(&self) -> (s: &[u8])
        ensures
            s@ == self.spec_data(),
    {
        let len: usize = if self.dlc <= 64 { self.dlc as usize } else { 64 };
        let all: &[u8] = self.data.as_slice();
        &all[0..len]
    }

    /// Mutable access to the effective data range.
    pub fn data_mut(&mut self) -> (s: &mut [u8])
        ensures
            s@ == old(self).spec_data(),
            final(self).data@ == final(s)@ + old(self).data@.subrange(
                effective_len(old(self).dlc),
                64,
            ),
            final(self).timestamp == old(self).timestamp,
            final(self).arbitration_id == old(self).arbitration_id,
            final(self).dlc == old(self).dlc,
            final(self).flags == old(self).flags,
            final(self).channel == old(self).channel,
    {
        let len: usize = if self.dlc <= 64 { self.dlc as usize } else { 64 };
        let all: &mut [u8] = &mut self.data;
        let (head, _tail) = all.split_at_mut(len);
        head
    }

    /// The protocol implied by this message's flags: XL, else FD (ISO), else CAN 2.0.
    pub fn protocol(&self) -> (p: CanProtocol)
        ensures
            p == (if flag_set(self.flags, XL_FRAME) {
                CanProtocol::CanXl
            } else if flag_set(self.flags, FD_FRAME) {
                CanProtocol::CanFd
            } else {
                CanProtocol::Can20
            }),
    {
        if self.is_xl() {
            CanProtocol::CanXl
        } else if self.is_fd() {
            CanProtocol::CanFd
        } else {
            CanProtocol::Can20
        }
    }

    /// Checks the message for consistency: flag combinations, identifier
    /// range, DLC limit and FD-only flags.
    pub fn validate(&self) -> (r: Result<(), CanError>)
        ensures
            r is Ok <==> validation_error(*self) is None,
            r matches Err(e) ==> is_operation_error(e, validation_error(*self).unwrap()),
    {
        if self.is_remote_frame() && self.is_error_frame() {
            return Err(CanError::operation("a message cannot be a remote and an error frame at the same time"));
        }
        if self.is_remote_frame() && self.is_fd() {
            return Err(CanError::operation("CAN FD does not support remote frames"));
        }
        if self.is_extended_id() {
            if self.arbitration_id >= 0x2000_0000 {
                return Err(CanError::operation("extended arbitration IDs must be less than 2^29"));
            }
        } else if self.arbitration_id >= 0x800 {
            return Err(CanError::operation("standard arbitration IDs must be less than 2^11"));
        }
        let max_dlc: u8 = if self.is_fd() { 64 } else { 8 };
        if self.dlc > max_dlc {
            let mut digits: Vec<u8> = Vec::new();
            push_decimal(&mut digits, max_dlc as u64);
            proof {
                lemma_dec_digits_ascii(max_dlc as nat);
                assert(digits@ =~= dec_digits(max_dlc as nat));
            }
            let max_text = ascii_string(digits.as_slice());
            let head = String::from_str(" exceeds maximum ");
            let middle = head.concat(max_text.as_str());
            let middle = middle.concat(" for this frame type");
            let e = operation_error_with_number("DLC ", self.dlc as u64, middle.as_str());
            proof {
                assert("DLC "@ + chars_of(dec_digits(self.dlc as nat)) + middle@ =~= "DLC "@ + chars_of(dec_digits(self.dlc as nat)) + " exceeds maximum "@ + chars_of(dec_digits(max_dlc as nat)) + " for this frame type"@);
            }
            return Err(e);
        }
        if !self.is_fd() {
            if self.bitrate_switch() {
                return Err(CanError::operation("bitrate switch is only allowed for CAN FD frames"));
            }
            if self.error_state_indicator() {
                return Err(CanError::operation("error state indicator is only allowed for CAN FD frames"));
            }
        }
        Ok(())
    }
}


/// Identifier in lower-case hexadecimal: 8 digits for extended identifiers,
/// at least 3 for standard ones.
pub open spec fn display_id(m: CanMessage) -> Seq<u8> {
    if flag_set(m.flags, EXTENDED_ID) {
        hex_padded(m.arbitration_id as nat, 8, false)
    } else {
        hex_padded(m.arbitration_id as nat, 3, false)
    }
}

/// Timestamp and identifier columns of the text form.
pub open spec fn display_head(m: CanMessage) -> Seq<u8> {
    pad_left(fixed6(m.timestamp as nat), 15, 32) + seq![32u8, 32u8] + pad_left(display_id(m), 8, 32)
        + seq![32u8, 32u8]
}

/// Flag letters of the text form: `X`/`S`, `Rx`/`Tx`, `E`, `R`, `F`, `BS`, `EI`.
pub open spec fn display_flags(m: CanMessage) -> Seq<u8> {
    seq![
        if flag_set(m.flags, EXTENDED_ID) { 88u8 } else { 83u8 },
        if flag_set(m.flags, RX_FRAME) { 82u8 } else { 84u8 },
        120u8,
        if flag_set(m.flags, ERROR_FRAME) { 69u8 } else { 32u8 },
        if flag_set(m.flags, REMOTE_FRAME) { 82u8 } else { 32u8 },
        if flag_set(m.flags, FD_FRAME) { 70u8 } else { 32u8 },
        if flag_set(m.flags, BITRATE_SWITCH) { 66u8 } else { 32u8 },
        if flag_set(m.flags, BITRATE_SWITCH) { 83u8 } else { 32u8 },
        if flag_set(m.flags, ERROR_STATE_INDICATOR) { 69u8 } else { 32u8 },
        if flag_set(m.flags, ERROR_STATE_INDICATOR) { 73u8 } else { 32u8 },
    ]
}

/// DLC and payload columns of the text form.
pub open spec fn display_tail(m: CanMessage) -> Seq<u8> {
    seq![32u8, 32u8, 68u8, 76u8, 58u8] + pad_left(dec_digits(m.dlc as nat), 2, 32) + seq![32u8, 32u8]
        + hex_join(m.spec_data(), false)
}

/// The one-line text form of a message: timestamp in seconds, identifier,
/// flag letters, DLC and payload in hexadecimal.
pub open spec fn display_bytes(m: CanMessage) -> Seq<u8> {
    display_head(m) + display_flags(m) + display_tail(m)
}

proof fn lemma_display_ascii(m: CanMessage)
    ensures
        is_ascii_bytes(display_bytes(m)),
{
    lemma_fixed6_ascii(m.timestamp as nat);
    lemma_pad_left_ascii(fixed6(m.timestamp as nat), 15, 32);
    crate::text::lemma_hex_digits_ascii(m.arbitration_id as nat, false);
    lemma_pad_left_ascii(crate::text::hex_digits(m.arbitration_id as nat, false), 8, 48);
    lemma_pad_left_ascii(crate::text::hex_digits(m.arbitration_id as nat, false), 3, 48);
    lemma_pad_left_ascii(display_id(m), 8, 32);
    lemma_dec_digits_ascii(m.dlc as nat);
    lemma_pad_left_ascii(dec_digits(m.dlc as nat), 2, 32);
    lemma_hex_join_ascii(m.spec_data(), false);
    let h = display_head(m);
    let f = display_flags(m);
    let t = display_tail(m);
    assert(is_ascii_bytes(h));
    assert(is_ascii_bytes(f));
    assert(is_ascii_bytes(t));
    let d = display_bytes(m);
    assert forall|i: int| 0 <= i < d.len() implies #[trigger] d[i] < 128 by {
        if i < h.len() {
            assert(d[i] == h[i]);
        } else if i < h.len() + f.len() {
            assert(d[i] == f[i - h.len()]);
        } else {
            assert(d[i] == t[i - h.len() - f.len()]);
        }
    }
}

impl CanMessage {
    fn push_display_head(&self, out: &mut Vec<u8>)
        ensures
            final(out)@ == old(out)@ + display_head(*self),
    {
        let mut ts: Vec<u8> = Vec::new();
        push_fixed6(&mut ts, self.timestamp);
        push_padded(out, ts.as_slice(), 15, 32);
        out.push(32);
        out.push(32);
        let mut id: Vec<u8> = Vec::new();
        if self.is_extended_id() {
            push_hex_padded(&mut id, self.arbitration_id as u64, 8, false);
        } else {
            push_hex_padded(&mut id, self.arbitration_id as u64, 3, false);
        }
        push_padded(out, id.as_slice(), 8, 32);
        out.push(32);
        out.push(32);
        assert(final(out)@ =~= old(out)@ + display_head(*self));
    }

    fn push_display_flags(&self, out: &mut Vec<u8>)
        ensures
            final(out)@ == old(out)@ + display_flags(*self),
    {
        out.push(if self.is_extended_id() { 88u8 } else { 83u8 });
        out.push(if self.is_rx() { 82u8 } else { 84u8 });
        out.push(120u8);
        out.push(if self.is_error_frame() { 69u8 } else { 32u8 });
        out.push(if self.is_remote_frame() { 82u8 } else { 32u8 });
        out.push(if self.is_fd() { 70u8 } else { 32u8 });
        let brs = self.bitrate_switch();
        out.push(if brs { 66u8 } else { 32u8 });
        out.push(if brs { 83u8 } else { 32u8 });
        let esi = self.error_state_indicator();
        out.push(if esi { 69u8 } else { 32u8 });
        out.push(if esi { 73u8 } else { 32u8 });
        assert(final(out)@ =~= old(out)@ + display_flags(*self));
    }

    fn push_display_tail(&self, out: &mut Vec<u8>)
        ensures
            final(out)@ == old(out)@ + display_tail(*self),
    {
        out.push(32u8);
        out.push(32u8);
        out.push(68u8);
        out.push(76u8);
        out.push(58u8);
        let mut dl: Vec<u8> = Vec::new();
        push_decimal(&mut dl, self.dlc as u64);
        push_padded(out, dl.as_slice(), 2, 32);
        out.push(32u8);
        out.push(32u8);
        push_hex_join(out, self.data_slice(), false);
        assert(final(out)@ =~= old(out)@ + display_tail(*self));
    }

    /// The message as one line of text: seconds with
    /// six decimals, identifier, flag letters, `DL:` and the payload bytes.
    pub fn to_display_string(&self) -> (s: String)
        ensures
            s@ == chars_of(display_bytes(*self)),
    {
        let mut out: Vec<u8> = Vec::new();
        self.push_display_head(&mut out);
        self.push_display_flags(&mut out);
        self.push_display_tail(&mut out);
        proof {
            assert(out@ =~= display_bytes(*self));
            lemma_display_ascii(*self);
        }
        ascii_string(out.as_slice())
    }
}

impl Clone for CanMessage {
    fn clone(&self) -> (m: Self)
        ensures
            m == *self,
    {
        CanMessage {
            timestamp: self.timestamp,
            arbitration_id: self.arbitration_id,
            data: self.data,
            dlc: self.dlc,
            flags: self.flags,
            channel: self.channel,
        }
    }
}

/// Two messages are equal when all header fields and the meaningful payload
/// bytes agree; bytes past the DLC do not count.
pub open spec fn messages_equal(a: CanMessage, b: CanMessage) -> bool {
    &&& a.timestamp == b.timestamp
    &&& a.arbitration_id == b.arbitration_id
    &&& a.dlc == b.dlc
    &&& a.flags == b.flags
    &&& a.channel == b.channel
    &&& a.spec_data() == b.spec_data()
}

impl PartialEq for CanMessage {
    fn eq(&self, other: &Self) -> (r: bool) {
        if self.timestamp != other.timestamp || self.arbitration_id != other.arbitration_id
            || self.dlc != other.dlc || self.flags != other.flags || self.channel != other.channel {
            return false;
        }
        let a = self.data_slice();
        let b = other.data_slice();
        let mut i: usize = 0;
        while i < a.len()
            invariant
                a@ == self.spec_data(),
                b@ == other.spec_data(),
                a.len() == b.len(),
                i <= a.len(),
                forall|k: int| 0 <= k < i ==> a@[k] == b@[k],
            decreases a.len() - i,
        {
            if a[i] != b[i] {
                return false;
            }
            i = i + 1;
        }
        assert(a@ =~= b@);
        true
    }
}

impl vstd::std_specs::cmp::PartialEqSpecImpl for CanMessage {
    open spec fn obeys_eq_spec() -> bool {
        true
    }

    open spec fn eq_spec(&self, other: &Self) -> bool {
        messages_equal(*self, *other)
    }
}

impl Eq for CanMessage {}

/// A CAN XL message with extended data (more than 64 bytes).
///
/// CAN XL supports up to 2048 bytes. The first 64 bytes are also in the
/// inline `header.data` field; `ext_data` holds the full payload.
pub struct CanMessageXL {
    /// Standard message header with the inline first 64 bytes.
    pub header: CanMessage,
    /// Full extended data payload (up to 2048 bytes).
    pub ext_data: bytes::Bytes,
}

impl CanMessageXL {
    /// Creates a CAN XL message (extended identifier, FD and XL flags, marked
    /// as received). Fails when the payload holds more than 2048 bytes.
    pub fn new(arbitration_id: u32, data: bytes::Bytes) -> (r: Result<Self, CanError>)
        ensures
            r is Ok <==> bytes_view(data).len() <= 2048,
            r matches Ok(m) ==> {
                let n = if bytes_view(data).len() <= 64 { bytes_view(data).len() } else { 64 };
                &&& m.header.built(
                    arbitration_id,
                    bytes_view(data).subrange(0, n as int),
                    n as u8,
                    flags_byte(true, false, false, true, true, false, false, true),
                )
                &&& bytes_view(m.ext_data) == bytes_view(data)
            },
            r matches Err(e) ==> is_operation_error(
                e,
                "CAN XL data length must be ≤ 2048, got "@ + chars_of(dec_digits(bytes_view(data).len())),
            ),
    {
        let payload = bytes_as_slice(&data);
        let payload_len = payload.len();
        if payload_len > 2048 {
            let e = operation_error_with_number("CAN XL data length must be ≤ 2048, got ", payload_len as u64, "");
            proof {
                reveal_strlit("");
                assert("CAN XL data length must be ≤ 2048, got "@ + chars_of(dec_digits(payload_len as nat)) + ""@
                    =~= "CAN XL data length must be ≤ 2048, got "@ + chars_of(dec_digits(payload_len as nat)));
            }
            return Err(e);
        }
        let inline_len: usize = if payload_len <= 64 { payload_len } else { 64 };
        let buf = fill_payload(&payload[0..inline_len]);
        let flags = make_flags(true, false, false, true, true, false, false, true);
        let header = CanMessage {
            timestamp: now_nanos(),
            arbitration_id,
            data: buf,
            dlc: inline_len as u8,
            flags,
            channel: 0,
        };
        Ok(CanMessageXL { header, ext_data: data })
    }

    /// The full data payload.
    pub fn data(&self) -> (s: &[u8])
        ensures
            s@ == bytes_view(self.ext_data),
    {
        bytes_as_slice(&self.ext_data)
    }
}

/// `m` is the inline message of the CAN XL message `xl`: its header with the
/// first `min(dlc, 64)` payload bytes copied from the full payload (as far as
/// the full payload reaches).
pub open spec fn is_inline_message_of(xl: CanMessageXL, m: CanMessage) -> bool {
    let n = effective_len(xl.header.dlc);
    let ext = bytes_view(xl.ext_data);
    let k = if ext.len() < n { ext.len() as int } else { n };
    &&& m.timestamp == xl.header.timestamp
    &&& m.arbitration_id == xl.header.arbitration_id
    &&& m.dlc == xl.header.dlc
    &&& m.flags == xl.header.flags
    &&& m.channel == xl.header.channel
    &&& m.data@ == ext.subrange(0, k) + xl.header.data@.subrange(k, 64)
}

impl From<CanMessageXL> for CanMessage {
    fn from(xl: CanMessageXL) -> (m: Self) {
        let ext = bytes_as_slice(&xl.ext_data);
        let n: usize = if xl.header.dlc <= 64 { xl.header.dlc as usize } else { 64 };
        let k: usize = if ext.len() < n { ext.len() } else { n };
        let mut data = xl.header.data;
        let mut i: usize = 0;
        while i < k
            invariant
                k <= ext.len(),
                k <= 64,
                i <= k,
                data@.len() == 64,
                forall|j: int| 0 <= j < i ==> data@[j] == ext@[j],
                forall|j: int| i <= j < 64 ==> data@[j] == xl.header.data@[j],
            decreases k - i,
        {
            data[i] = ext[i];
            i = i + 1;
        }
        let msg = CanMessage {
            timestamp: xl.header.timestamp,
            arbitration_id: xl.header.arbitration_id,
            data,
            dlc: xl.header.dlc,
            flags: xl.header.flags,
            channel: xl.header.channel,
        };
        proof {
            assert(msg.data@ =~= ext@.subrange(0, k as int) + xl.header.data@.subrange(k as int, 64));
            assert(is_inline_message_of(xl, msg));
            let c = choose|m: CanMessage| is_inline_message_of(xl, m);
            assert(c.data@ =~= msg.data@);
            assert(c.data =~= msg.data);
        }
        msg
    }
}

impl vstd::std_specs::convert::FromSpecImpl<CanMessageXL> for CanMessage {
    open spec fn obeys_from_spec() -> bool {
        true
    }

    open spec fn from_spec(xl: CanMessageXL) -> Self {
        choose|m: CanMessage| is_inline_message_of(xl, m)
    }
}


} // verus!
