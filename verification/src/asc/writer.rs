//! Writing events as ASC lines.
use vstd::prelude::*;
use vstd::string::StringSliceAdditionalSpecFns;
use vstd::utf8::encode_utf8;

use crate::asc::syntax::AscParseError;
use crate::blf::codec::push_bytes;
use crate::event::{CanFdLogEvent, CanLogEvent, Channel, ChannelModel, Direction, LinLogEvent, LogEvent};
use crate::text::{
    dec_digits, fixed6, hex2, hex_digits, hex_join, push_decimal, push_fixed6, push_hex, push_hex2,
    push_hex_join,
};

verus! {

/// A timestamp in seconds with six decimals, with a `-` before a negative one.
pub open spec fn timestamp_text(ns: i64) -> Seq<u8> {
    if ns < 0 {
        seq![45u8] + fixed6((-(ns as int)) as nat)
    } else {
        fixed6(ns as nat)
    }
}

/// A channel as written: a numbered channel one-based (saturating), a named
/// channel by its name.
pub open spec fn channel_text(c: ChannelModel) -> Seq<u8> {
    match c {
        ChannelModel::Number(n) => dec_digits(
            if n == u16::MAX {
                n as nat
            } else {
                (n + 1) as nat
            },
        ),
        ChannelModel::Named(name) => encode_utf8(name),
    }
}

/// An identifier in upper-case hexadecimal, with `x` after an extended one.
pub open spec fn id_text(arbitration_id: u32, extended_id: bool) -> Seq<u8> {
    hex_digits(arbitration_id as nat, true) + if extended_id {
        seq![120u8]
    } else {
        Seq::empty()
    }
}

/// `Rx` or `Tx`.
pub open spec fn direction_text(d: Direction) -> Seq<u8> {
    match d {
        Direction::Rx => seq![82u8, 120u8],
        Direction::Tx => seq![84u8, 120u8],
    }
}

/// A space.
pub open spec fn sp() -> Seq<u8> {
    seq![32u8]
}

/// Timestamp, channel, identifier and direction, separated by spaces.
pub open spec fn head_text(ts: i64, c: ChannelModel, id: u32, ext: bool, d: Direction) -> Seq<u8> {
    timestamp_text(ts) + sp() + channel_text(c) + sp() + id_text(id, ext) + sp() + direction_text(d)
}

/// The line of a CAN frame: remote frames with `r` and their length in
/// hexadecimal, data frames with `d`, the length and the data bytes.
pub open spec fn can_line(f: CanLogEvent) -> Seq<u8> {
    let head = head_text(f.timestamp_ns, f.channel@, f.arbitration_id, f.extended_id, f.direction);
    if f.remote_frame {
        head + seq![32u8, 114u8, 32u8] + hex_digits(f.data@.len(), true) + seq![10u8]
    } else {
        head + seq![32u8, 100u8, 32u8] + hex_digits(f.data@.len(), true) + sp() + hex_join(
            f.data@,
            true,
        ) + seq![10u8]
    }
}

/// The start of a CAN FD line: timestamp, `CANFD`, channel, identifier
/// and direction.
pub open spec fn canfd_prefix(f: CanFdLogEvent) -> Seq<u8> {
    timestamp_text(f.timestamp_ns) + seq![32u8, 67u8, 65u8, 78u8, 70u8, 68u8, 32u8] + channel_text(
        f.channel@,
    ) + sp() + id_text(f.arbitration_id, f.extended_id) + sp() + direction_text(f.direction)
}

/// The end of a CAN FD line: BRS and ESI as 0 or 1, `d`, the DLC code and
/// length in decimal, the data bytes and the line break.
pub open spec fn canfd_body(f: CanFdLogEvent) -> Seq<u8> {
    seq![
        32u8,
        if f.bitrate_switch {
            49u8
        } else {
            48u8
        },
        32u8,
        if f.error_state_indicator {
            49u8
        } else {
            48u8
        },
        32u8,
        100u8,
        32u8,
    ] + dec_digits(f.dlc_code as nat) + sp() + dec_digits(f.data@.len()) + sp() + hex_join(
        f.data@,
        true,
    ) + seq![10u8]
}

/// The line of a CAN FD frame.
pub open spec fn canfd_line(f: CanFdLogEvent) -> Seq<u8> {
    canfd_prefix(f) + canfd_body(f)
}

/// ` checksum = ` and two hexadecimal digits.
pub open spec fn checksum_text(c: u8) -> Seq<u8> {
    seq![32u8, 99u8, 104u8, 101u8, 99u8, 107u8, 115u8, 117u8, 109u8, 32u8, 61u8, 32u8] + hex2(c, true)
}

/// The start of a LIN line: timestamp, channel, frame identifier in
/// hexadecimal and direction.
pub open spec fn lin_prefix(f: LinLogEvent) -> Seq<u8> {
    timestamp_text(f.timestamp_ns) + sp() + channel_text(f.channel@) + sp() + hex_digits(
        f.frame_id as nat,
        true,
    ) + sp() + direction_text(f.direction)
}

/// The end of a LIN line: length in decimal, data bytes, an optional
/// checksum and the line break.
pub open spec fn lin_body(f: LinLogEvent) -> Seq<u8> {
    sp() + dec_digits(f.data@.len()) + sp() + hex_join(f.data@, true) + match f.checksum {
        Some(c) => checksum_text(c),
        None => Seq::empty(),
    } + seq![10u8]
}

/// The line of a LIN frame.
pub open spec fn lin_line(f: LinLogEvent) -> Seq<u8> {
    lin_prefix(f) + lin_body(f)
}

/// The line an event is written as; metadata, raw and unknown records are
/// written as their text.
pub open spec fn asc_line(e: LogEvent) -> Seq<u8> {
    match e {
        LogEvent::Can(f) => can_line(f),
        LogEvent::CanFd(f) => canfd_line(f),
        LogEvent::Lin(f) => lin_line(f),
        LogEvent::Metadata(m) => encode_utf8(m.text@) + seq![10u8],
        LogEvent::Raw(r) => encode_utf8(r.raw@) + seq![10u8],
        LogEvent::Unknown(u) => encode_utf8(u.raw@) + seq![10u8],
    }
}

/// Appends timestamp, channel, identifier and direction.
pub fn push_head(out: &mut Vec<u8>, ts: i64, channel: &Channel, id: u32, ext: bool, d: Direction)
    ensures
        final(out)@ == old(out)@ + head_text(ts, channel@, id, ext, d),
{
    push_timestamp(out, ts);
    out.push(32);
    let ghost a = out@;
    push_channel(out, channel);
    out.push(32);
    let ghost b = out@;
    push_arbitration_id(out, id, ext);
    out.push(32);
    let ghost c = out@;
    push_direction(out, d);
    assert(a =~= old(out)@ + timestamp_text(ts) + sp());
    assert(b =~= a + channel_text(channel@) + sp());
    assert(c =~= b + id_text(id, ext) + sp());
    assert(final(out)@ =~= old(out)@ + head_text(ts, channel@, id, ext, d));
}

/// Appends a timestamp in seconds.
pub fn push_timestamp(out: &mut Vec<u8>, timestamp_ns: i64)
    ensures
        final(out)@ == old(out)@ + timestamp_text(timestamp_ns),
{
    if timestamp_ns < 0 {
        out.push(45);
        let magnitude: u64 = (-(timestamp_ns as i128)) as u64;
        push_fixed6(out, magnitude);
        assert(final(out)@ =~= old(out)@ + timestamp_text(timestamp_ns));
    } else {
        push_fixed6(out, timestamp_ns as u64);
    }
}

/// Appends a channel.
pub fn push_channel(out: &mut Vec<u8>, channel: &Channel)
    ensures
        final(out)@ == old(out)@ + channel_text(channel@),
{
    match channel {
        Channel::Number(number) => push_decimal(out, number.saturating_add(1) as u64),
        Channel::Named(name) => push_bytes(out, name.as_str().as_bytes()),
    }
}

/// Appends an identifier.
pub fn push_arbitration_id(out: &mut Vec<u8>, arbitration_id: u32, extended_id: bool)
    ensures
        final(out)@ == old(out)@ + id_text(arbitration_id, extended_id),
{
    push_hex(out, arbitration_id as u64, true);
    if extended_id {
        out.push(120);
    }
    assert(final(out)@ =~= old(out)@ + id_text(arbitration_id, extended_id));
}

/// Appends a direction.
pub fn push_direction(out: &mut Vec<u8>, direction: Direction)
    ensures
        final(out)@ == old(out)@ + direction_text(direction),
{
    match direction {
        Direction::Rx => {
            out.push(82);
            out.push(120);
        },
        Direction::Tx => {
            out.push(84);
            out.push(120);
        },
    }
    assert(final(out)@ =~= old(out)@ + direction_text(direction));
}

/// Writer of ASC lines, in memory.
pub struct AscWriter {
    out: Vec<u8>,
}

impl AscWriter {
    /// The bytes written so far.
    pub closed spec fn written(&self) -> Seq<u8> {
        self.out@
    }

    /// Creates a writer with nothing written.
    pub fn new() -> (w: Self)
        ensures
            w.written() == Seq::<u8>::empty(),
    {
        AscWriter { out: Vec::new() }
    }

    /// The bytes written so far.
    pub fn as_bytes(&self) -> (b: &[u8])
        ensures
            b@ == self.written(),
    {
        self.out.as_slice()
    }

    /// The bytes written, consuming the writer.
    pub fn into_bytes(self) -> (b: Vec<u8>)
        ensures
            b@ == self.written(),
    {
        self.out
    }

    /// Writes one event as a line.
    pub fn write_event(&mut self, event: &LogEvent) -> (r: Result<(), AscParseError>)
        ensures
            r is Ok,
            final(self).written() == old(self).written() + asc_line(*event),
            event matches LogEvent::Unknown(u) ==> final(self).written() == old(self).written()
                + encode_utf8(u.raw@) + seq![10u8],
            event matches LogEvent::Raw(x) ==> final(self).written() == old(self).written()
                + encode_utf8(x.raw@) + seq![10u8],
            event matches LogEvent::Metadata(m) ==> final(self).written() == old(self).written()
                + encode_utf8(m.text@) + seq![10u8],
    {
        match event {
            LogEvent::Can(frame) => self.write_can(frame),
            LogEvent::CanFd(frame) => self.write_canfd(frame),
            LogEvent::Lin(frame) => self.write_lin(frame),
            LogEvent::Metadata(metadata) => {
                push_bytes(&mut self.out, metadata.text.as_str().as_bytes());
                self.out.push(10);
                assert(self.out@ =~= old(self).out@ + asc_line(*event));
            },
            LogEvent::Raw(raw) => {
                push_bytes(&mut self.out, raw.raw.as_str().as_bytes());
                self.out.push(10);
                assert(self.out@ =~= old(self).out@ + asc_line(*event));
            },
            LogEvent::Unknown(unknown) => {
                push_bytes(&mut self.out, unknown.raw.as_str().as_bytes());
                self.out.push(10);
                assert(self.out@ =~= old(self).out@ + asc_line(*event));
            },
        }
        Ok(())
    }

    fn write_can(&mut self, frame: &CanLogEvent)
        ensures
            final(self).written() == old(self).written() + can_line(*frame),
    {
        let out = &mut self.out;
        push_head(out, frame.timestamp_ns, &frame.channel, frame.arbitration_id, frame.extended_id, frame.direction);
        let ghost h = out@;
        let data = frame.data.as_slice();
        if frame.remote_frame {
            out.push(32);
            out.push(114);
            out.push(32);
            push_hex(out, data.len() as u64, true);
            out.push(10);
            assert(out@ =~= h + seq![32u8, 114u8, 32u8] + hex_digits(data@.len(), true) + seq![10u8]);
        } else {
            out.push(32);
            out.push(100);
            out.push(32);
            push_hex(out, data.len() as u64, true);
            out.push(32);
            let ghost m = out@;
            push_hex_join(out, data, true);
            out.push(10);
            assert(m =~= h + seq![32u8, 100u8, 32u8] + hex_digits(data@.len(), true) + sp());
            assert(out@ =~= m + hex_join(data@, true) + seq![10u8]);
        }
    }

    fn write_canfd(&mut self, frame: &CanFdLogEvent)
        ensures
            final(self).written() == old(self).written() + canfd_line(*frame),
    {
        push_canfd_prefix(&mut self.out, frame);
        push_canfd_body(&mut self.out, frame);
        assert(self.out@ =~= old(self).out@ + canfd_line(*frame));
    }

    fn write_lin(&mut self, frame: &LinLogEvent)
        ensures
            final(self).written() == old(self).written() + lin_line(*frame),
    {
        push_lin_prefix(&mut self.out, frame);
        push_lin_body(&mut self.out, frame);
        assert(self.out@ =~= old(self).out@ + lin_line(*frame));
    }
}

/// Appends the start of a CAN FD line.
fn push_canfd_prefix(out: &mut Vec<u8>, frame: &CanFdLogEvent)
    ensures
        final(out)@ == old(out)@ + canfd_prefix(*frame),
{
    push_timestamp(out, frame.timestamp_ns);
    let ghost t = out@;
    out.push(32);
    out.push(67);
    out.push(65);
    out.push(78);
    out.push(70);
    out.push(68);
    out.push(32);
    let ghost a = out@;
    push_channel(out, &frame.channel);
    out.push(32);
    let ghost b = out@;
    push_arbitration_id(out, frame.arbitration_id, frame.extended_id);
    out.push(32);
    let ghost c = out@;
    push_direction(out, frame.direction);
    assert(a =~= t + seq![32u8, 67u8, 65u8, 78u8, 70u8, 68u8, 32u8]);
    assert(b =~= a + channel_text(frame.channel@) + sp());
    assert(c =~= b + id_text(frame.arbitration_id, frame.extended_id) + sp());
    assert(out@ =~= old(out)@ + canfd_prefix(*frame));
}

/// Appends the end of a CAN FD line.
fn push_canfd_body(out: &mut Vec<u8>, frame: &CanFdLogEvent)
    ensures
        final(out)@ == old(out)@ + canfd_body(*frame),
{
    out.push(32);
    out.push(if frame.bitrate_switch { 49 } else { 48 });
    out.push(32);
    out.push(if frame.error_state_indicator { 49 } else { 48 });
    out.push(32);
    out.push(100);
    out.push(32);
    let ghost f = out@;
    push_decimal(out, frame.dlc_code as u64);
    out.push(32);
    let ghost g = out@;
    let data = frame.data.as_slice();
    push_decimal(out, data.len() as u64);
    out.push(32);
    let ghost h = out@;
    push_hex_join(out, data, true);
    out.push(10);
    assert(g =~= f + dec_digits(frame.dlc_code as nat) + sp());
    assert(h =~= g + dec_digits(data@.len()) + sp());
    assert(out@ =~= old(out)@ + canfd_body(*frame));
}

/// Appends the start of a LIN line.
fn push_lin_prefix(out: &mut Vec<u8>, frame: &LinLogEvent)
    ensures
        final(out)@ == old(out)@ + lin_prefix(*frame),
{
    push_timestamp(out, frame.timestamp_ns);
    out.push(32);
    let ghost a = out@;
    push_channel(out, &frame.channel);
    out.push(32);
    let ghost b = out@;
    push_hex(out, frame.frame_id as u64, true);
    out.push(32);
    let ghost c = out@;
    push_direction(out, frame.direction);
    assert(a =~= old(out)@ + timestamp_text(frame.timestamp_ns) + sp());
    assert(b =~= a + channel_text(frame.channel@) + sp());
    assert(c =~= b + hex_digits(frame.frame_id as nat, true) + sp());
    assert(out@ =~= old(out)@ + lin_prefix(*frame));
}

/// Appends the end of a LIN line.
fn push_lin_body(out: &mut Vec<u8>, frame: &LinLogEvent)
    ensures
        final(out)@ == old(out)@ + lin_body(*frame),
{
    out.push(32);
    let data = frame.data.as_slice();
    push_decimal(out, data.len() as u64);
    out.push(32);
    let ghost f = out@;
    push_hex_join(out, data, true);
    let ghost before = out@;
    match frame.checksum {
        Some(checksum) => {
            out.push(32);
            out.push(99);
            out.push(104);
            out.push(101);
            out.push(99);
            out.push(107);
            out.push(115);
            out.push(117);
            out.push(109);
            out.push(32);
            out.push(61);
            out.push(32);
            push_hex2(out, checksum, true);
            assert(out@ =~= before + checksum_text(checksum));
        },
        None => {},
    }
    let ghost g = out@;
    out.push(10);
    assert(f =~= old(out)@ + sp() + dec_digits(data@.len()) + sp());
    assert(before =~= f + hex_join(data@, true));
    assert(out@ =~= old(out)@ + lin_body(*frame));
}

} // verus!
