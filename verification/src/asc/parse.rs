//! Parsing ASC lines into events.
use vstd::prelude::*;
use vstd::string::StringSliceAdditionalSpecFns;

use crate::asc::syntax::{
    all_digits, digit_value, is_asc_fault, parse_decimal_u16, parse_decimal_u8,
    parse_decimal_usize, parse_direction, parse_hex_byte, parse_hex_u32,
    spec_parse_direction, spec_parse_hex_id, spec_parse_unsigned, split_tokens,
    text_of, tokens, trimmed, views, AscFault, AscParseError,
};
use crate::asc::timestamp::{parse_timestamp_ns, spec_timestamp_ns};
use crate::event::{
    CanFdLogEvent, CanLogEvent, Channel, ChannelModel, EventModel, LinLogEvent,
    LogEvent, Payload, UnknownEvent,
};
use crate::external::string_from_utf8_lossy;
use crate::text::chars_of;

verus! {

/// The token spells `text`.
pub open spec fn token_is(t: Seq<u8>, text: Seq<char>) -> bool {
    chars_of(t) == text
}

/// The bytes start with `text`.
pub open spec fn starts_with_text(t: Seq<u8>, text: Seq<char>) -> bool {
    text.len() <= t.len() && chars_of(t.subrange(0, text.len() as int)) == text
}

/// Whether bytes spell an ASCII text.
pub fn text_is(t: &[u8], text: &str) -> (b: bool)
    requires
        vstd::string::is_ascii(text),
    ensures
        b == token_is(t@, text@),
{
    let p = text.as_bytes();
    proof {
        vstd::string::is_ascii_spec_bytes(text);
    }
    if t.len() != p.len() {
        assert(chars_of(t@).len() != text@.len());
        return false;
    }
    let mut i: usize = 0;
    while i < t.len()
        invariant
            i <= t@.len(),
            t@.len() == p@.len(),
            p@ == Seq::new(text@.len(), |k: int| text@[k] as u8),
            vstd::string::is_ascii(text),
            forall|k: int| 0 <= k < i ==> t@[k] == p@[k],
        decreases t@.len() - i,
    {
        if t[i] != p[i] {
            assert(chars_of(t@)[i as int] != text@[i as int]);
            return false;
        }
        i = i + 1;
    }
    assert(chars_of(t@) =~= text@);
    true
}

/// Whether bytes start with an ASCII text.
pub fn starts_with(t: &[u8], text: &str) -> (b: bool)
    requires
        vstd::string::is_ascii(text),
    ensures
        b == starts_with_text(t@, text@),
{
    let n = text.len();
    proof {
        vstd::string::is_ascii_spec_bytes(text);
    }
    if t.len() < n {
        return false;
    }
    text_is(&t[0..n], text)
}

/// Lines of the file header and trigger block markers, which hold no event.
pub open spec fn is_metadata_line(t: Seq<u8>) -> bool {
    ||| starts_with_text(t, "date "@)
    ||| starts_with_text(t, "base "@)
    ||| starts_with_text(t, "internal "@)
    ||| starts_with_text(t, "//"@)
    ||| starts_with_text(t, "Begin TriggerBlock"@)
    ||| starts_with_text(t, "Begin Triggerblock"@)
    ||| starts_with_text(t, "End TriggerBlock"@)
}

/// Whether a trimmed line holds no event.
pub fn is_metadata_line_without_event(t: &[u8]) -> (b: bool)
    ensures
        b == is_metadata_line(t@),
{
    proof {
        reveal_strlit("date ");
        reveal_strlit("base ");
        reveal_strlit("internal ");
        reveal_strlit("//");
        reveal_strlit("Begin TriggerBlock");
        reveal_strlit("Begin Triggerblock");
        reveal_strlit("End TriggerBlock");
    }
    starts_with(t, "date ") || starts_with(t, "base ") || starts_with(t, "internal ") || starts_with(
        t,
        "//",
    ) || starts_with(t, "Begin TriggerBlock") || starts_with(t, "Begin Triggerblock") || starts_with(
        t,
        "End TriggerBlock",
    )
}

/// `n` data bytes from the first tokens, each a hexadecimal byte; a missing
/// token is `MissingField("data")`.
pub open spec fn spec_payload(ts: Seq<Seq<u8>>, n: nat) -> Result<Seq<u8>, AscFault>
    decreases n,
{
    if n == 0 {
        Ok(Seq::empty())
    } else if ts.len() == 0 {
        Err(AscFault::Missing("data"@))
    } else {
        match spec_parse_unsigned(ts[0], 16, 255) {
            None => Err(AscFault::Invalid("data"@, ts[0])),
            Some(v) => match spec_payload(ts.drop_first(), (n - 1) as nat) {
                Ok(rest) => Ok(seq![v as u8] + rest),
                Err(f) => Err(f),
            },
        }
    }
}

/// Reads `n` data bytes from the tokens `start..end`.
pub fn parse_payload(toks: &Vec<&[u8]>, start: usize, end: usize, n: usize) -> (r: Result<Vec<u8>, AscParseError>)
    requires
        start <= end <= toks@.len(),
    ensures
        match (r, spec_payload(views(toks@).subrange(start as int, end as int), n as nat)) {
            (Ok(v), Ok(s)) => v@ == s,
            (Err(e), Err(f)) => is_asc_fault(e, f),
            _ => false,
        },
{
    let ghost all = views(toks@).subrange(start as int, end as int);
    let mut bytes: Vec<u8> = Vec::new();
    let mut i: usize = 0;
    proof {
        assert(all.subrange(0, all.len() as int) =~= all);
        match spec_payload(all, n as nat) {
            Ok(rest) => {
                assert(bytes@ + rest =~= rest);
            },
            Err(_) => {},
        }
    }
    while i < n
        invariant
            start <= end <= toks@.len(),
            all == views(toks@).subrange(start as int, end as int),
            i <= n,
            i <= all.len(),
            spec_payload(all, n as nat) == (match spec_payload(
                all.subrange(i as int, all.len() as int),
                (n - i) as nat,
            ) {
                Ok(rest) => Ok(bytes@ + rest),
                Err(f) => Err(f),
            }),
        decreases n - i,
    {
        let ghost rest = all.subrange(i as int, all.len() as int);
        if i >= end - start {
            assert(rest.len() == 0);
            proof {
                reveal_strlit("data");
            }
            return Err(AscParseError::MissingField("data"));
        }
        let token = toks[start + i];
        assert(rest[0] == token@);
        let v = match parse_hex_byte("data", token) {
            Ok(v) => v,
            Err(e) => return Err(e),
        };
        assert(rest.drop_first() =~= all.subrange(i + 1, all.len() as int));
        let ghost before = bytes@;
        bytes.push(v);
        proof {
            match spec_payload(all.subrange(i + 1, all.len() as int), (n - i - 1) as nat) {
                Ok(r2) => {
                    assert(before + (seq![v] + r2) =~= bytes@ + r2);
                },
                Err(_) => {},
            }
        }
        i = i + 1;
    }
    assert(bytes@ + Seq::<u8>::empty() =~= bytes@);
    Ok(bytes)
}

/// A stored channel number is one-based; channel 0 stays 0.
pub open spec fn asc_channel(v: int) -> ChannelModel {
    ChannelModel::Number(
        if v == 0 {
            0
        } else {
            (v - 1) as u16
        },
    )
}

/// A frame kind `r` or `R` marks a remote frame.
pub open spec fn is_remote_kind(t: Seq<u8>) -> bool {
    t.len() == 1 && (t[0] == 114 || t[0] == 82)
}

/// A classical CAN line: timestamp, channel, identifier, direction, frame
/// kind, hexadecimal DLC and, for data frames, up to eight data bytes.
pub open spec fn spec_parse_classic(toks: Seq<Seq<u8>>, ts: i64) -> Result<EventModel, AscFault> {
    match spec_parse_unsigned(toks[1], 10, 65535) {
        None => Err(AscFault::Invalid("channel"@, toks[1])),
        Some(ch) => match spec_parse_hex_id(toks[2]) {
            None => Err(AscFault::Invalid("arbitration_id"@, toks[2])),
            Some((id, ext)) => match spec_parse_direction(toks[3]) {
                None => Err(AscFault::Invalid("direction"@, toks[3])),
                Some(dir) => {
                    if toks.len() < 5 {
                        Err(AscFault::Missing("frame kind"@))
                    } else if toks.len() < 6 {
                        Err(AscFault::Missing("dlc"@))
                    } else {
                        match spec_parse_unsigned(toks[5], 16, 255) {
                            None => Err(AscFault::Invalid("dlc"@, toks[5])),
                            Some(dlc) => {
                                let remote = is_remote_kind(toks[4]);
                                let data = if remote {
                                    Ok(Seq::empty())
                                } else {
                                    spec_payload(
                                        toks.subrange(6, toks.len() as int),
                                        if dlc <= 8 {
                                            dlc as nat
                                        } else {
                                            8
                                        },
                                    )
                                };
                                match data {
                                    Err(f) => Err(f),
                                    Ok(d) => Ok(
                                        EventModel::Can {
                                            timestamp_ns: ts as int,
                                            channel: asc_channel(ch),
                                            arbitration_id: id,
                                            direction: dir,
                                            extended_id: ext,
                                            remote_frame: remote,
                                            data: d,
                                        },
                                    ),
                                }
                            },
                        }
                    }
                },
            },
        },
    }
}

/// Agreement of an exec event result with a spec one.
pub open spec fn event_agrees(r: Result<LogEvent, AscParseError>, s: Result<EventModel, AscFault>) -> bool {
    match (r, s) {
        (Ok(e), Ok(m)) => e@ == m,
        (Err(e), Err(f)) => is_asc_fault(e, f),
        _ => false,
    }
}

/// An empty payload.
fn empty_payload() -> (p: Payload)
    ensures
        p@ == Seq::<u8>::empty(),
{
    let empty: Vec<u8> = Vec::new();
    Payload::from_slice(empty.as_slice())
}

/// Parses a classical CAN line whose fourth token is a direction.
pub fn parse_classic_can(toks: &Vec<&[u8]>, timestamp_ns: i64) -> (r: Result<LogEvent, AscParseError>)
    requires
        toks@.len() >= 4,
    ensures
        event_agrees(r, spec_parse_classic(views(toks@), timestamp_ns)),
{
    let ghost t = views(toks@);
    assert(t[1] == toks@[1]@ && t[2] == toks@[2]@ && t[3] == toks@[3]@);
    let ch = match parse_decimal_u16("channel", toks[1]) {
        Ok(v) => v,
        Err(e) => return Err(e),
    };
    let (arbitration_id, extended_id) = match parse_hex_u32("arbitration_id", toks[2]) {
        Ok(v) => v,
        Err(e) => return Err(e),
    };
    let direction = match parse_direction(toks[3]) {
        Ok(d) => d,
        Err(e) => return Err(e),
    };
    proof {
        reveal_strlit("frame kind");
        reveal_strlit("dlc");
    }
    if toks.len() < 5 {
        return Err(AscParseError::MissingField("frame kind"));
    }
    if toks.len() < 6 {
        return Err(AscParseError::MissingField("dlc"));
    }
    assert(t[4] == toks@[4]@ && t[5] == toks@[5]@);
    let kind = toks[4];
    let dlc = match parse_hex_byte("dlc", toks[5]) {
        Ok(v) => v,
        Err(e) => return Err(e),
    };
    let remote_frame = kind.len() == 1 && (kind[0] == 114 || kind[0] == 82);
    let data = if remote_frame {
        empty_payload()
    } else {
        let n: usize = if dlc <= 8 { dlc as usize } else { 8 };
        assert(views(toks@).subrange(6, toks@.len() as int) == t.subrange(6, t.len() as int));
        match parse_payload(toks, 6, toks.len(), n) {
            Ok(bytes) => Payload::from(bytes),
            Err(e) => return Err(e),
        }
    };
    Ok(
        LogEvent::Can(
            CanLogEvent {
                timestamp_ns,
                channel: Channel::Number(ch.saturating_sub(1)),
                arbitration_id,
                direction,
                extended_id,
                remote_frame,
                data,
            },
        ),
    )
}

/// A CAN FD line: timestamp, `CANFD`, channel, identifier, direction, BRS,
/// ESI, a reserved token, decimal DLC code, decimal data length and the
/// data bytes.
pub open spec fn spec_parse_canfd(toks: Seq<Seq<u8>>, ts: i64) -> Result<EventModel, AscFault> {
    if toks.len() < 3 {
        Err(AscFault::Missing("channel"@))
    } else {
        match spec_parse_unsigned(toks[2], 10, 65535) {
            None => Err(AscFault::Invalid("channel"@, toks[2])),
            Some(ch) => if toks.len() < 4 {
                Err(AscFault::Missing("arbitration_id"@))
            } else {
                match spec_parse_hex_id(toks[3]) {
                    None => Err(AscFault::Invalid("arbitration_id"@, toks[3])),
                    Some((id, ext)) => if toks.len() < 5 {
                        Err(AscFault::Missing("direction"@))
                    } else {
                        match spec_parse_direction(toks[4]) {
                            None => Err(AscFault::Invalid("direction"@, toks[4])),
                            Some(dir) => if toks.len() < 6 {
                                Err(AscFault::Missing("brs"@))
                            } else if toks.len() < 7 {
                                Err(AscFault::Missing("esi"@))
                            } else if toks.len() < 9 {
                                Err(AscFault::Missing("dlc"@))
                            } else {
                                match spec_parse_unsigned(toks[8], 10, 255) {
                                    None => Err(AscFault::Invalid("dlc"@, toks[8])),
                                    Some(dlc) => if toks.len() < 10 {
                                        Err(AscFault::Missing("data length"@))
                                    } else {
                                        match spec_parse_unsigned(toks[9], 10, usize::MAX as int) {
                                            None => Err(AscFault::Invalid("data length"@, toks[9])),
                                            Some(n) => match spec_payload(
                                                toks.subrange(10, toks.len() as int),
                                                n as nat,
                                            ) {
                                                Err(f) => Err(f),
                                                Ok(d) => Ok(
                                                    EventModel::CanFd {
                                                        timestamp_ns: ts as int,
                                                        channel: asc_channel(ch),
                                                        arbitration_id: id,
                                                        direction: dir,
                                                        extended_id: ext,
                                                        bitrate_switch: token_is(toks[5], "1"@),
                                                        error_state_indicator: token_is(toks[6], "1"@),
                                                        dlc_code: dlc as u8,
                                                        data: d,
                                                    },
                                                ),
                                            },
                                        }
                                    },
                                }
                            },
                        }
                    },
                }
            },
        }
    }
}

/// Parses a CAN FD line.
pub fn parse_canfd(toks: &Vec<&[u8]>, timestamp_ns: i64) -> (r: Result<LogEvent, AscParseError>)
    ensures
        event_agrees(r, spec_parse_canfd(views(toks@), timestamp_ns)),
{
    let ghost t = views(toks@);
    proof {
        reveal_strlit("channel");
        reveal_strlit("arbitration_id");
        reveal_strlit("direction");
        reveal_strlit("brs");
        reveal_strlit("esi");
        reveal_strlit("dlc");
        reveal_strlit("data length");
        reveal_strlit("1");
    }
    let len = toks.len();
    if len < 3 {
        return Err(AscParseError::MissingField("channel"));
    }
    assert(t[2] == toks@[2]@);
    let ch = match parse_decimal_u16("channel", toks[2]) {
        Ok(v) => v,
        Err(e) => return Err(e),
    };
    if len < 4 {
        return Err(AscParseError::MissingField("arbitration_id"));
    }
    assert(t[3] == toks@[3]@);
    let (arbitration_id, extended_id) = match parse_hex_u32("arbitration_id", toks[3]) {
        Ok(v) => v,
        Err(e) => return Err(e),
    };
    if len < 5 {
        return Err(AscParseError::MissingField("direction"));
    }
    assert(t[4] == toks@[4]@);
    let direction = match parse_direction(toks[4]) {
        Ok(d) => d,
        Err(e) => return Err(e),
    };
    if len < 6 {
        return Err(AscParseError::MissingField("brs"));
    }
    if len < 7 {
        return Err(AscParseError::MissingField("esi"));
    }
    if len < 9 {
        return Err(AscParseError::MissingField("dlc"));
    }
    assert(t[5] == toks@[5]@ && t[6] == toks@[6]@ && t[8] == toks@[8]@);
    let dlc_code = match parse_decimal_u8("dlc", toks[8]) {
        Ok(v) => v,
        Err(e) => return Err(e),
    };
    if len < 10 {
        return Err(AscParseError::MissingField("data length"));
    }
    assert(t[9] == toks@[9]@);
    let n = match parse_decimal_usize("data length", toks[9], toks[9]) {
        Ok(v) => v,
        Err(e) => return Err(e),
    };
    assert(views(toks@).subrange(10, len as int) == t.subrange(10, t.len() as int));
    let data = match parse_payload(toks, 10, len, n) {
        Ok(bytes) => Payload::from(bytes),
        Err(e) => return Err(e),
    };
    let bitrate_switch = text_is(toks[5], "1");
    let error_state_indicator = text_is(toks[6], "1");
    Ok(
        LogEvent::CanFd(
            CanFdLogEvent {
                timestamp_ns,
                channel: Channel::Number(ch.saturating_sub(1)),
                arbitration_id,
                direction,
                extended_id,
                bitrate_switch,
                error_state_indicator,
                dlc_code,
                data,
            },
        ),
    )
}

/// The position of the first token that spells `text`.
pub open spec fn find_token(ts: Seq<Seq<u8>>, text: Seq<char>) -> Option<int>
    decreases ts.len(),
{
    if ts.len() == 0 {
        None
    } else if token_is(ts[0], text) {
        Some(0)
    } else {
        match find_token(ts.drop_first(), text) {
            Some(k) => Some(k + 1),
            None => None,
        }
    }
}

/// A found token is within the list and spells the text; no earlier one does.
pub proof fn lemma_find_token(ts: Seq<Seq<u8>>, text: Seq<char>)
    ensures
        find_token(ts, text) matches Some(k) ==> 0 <= k < ts.len() && token_is(ts[k], text),
        forall|j: int|
            0 <= j < ts.len() && token_is(#[trigger] ts[j], text) ==> (find_token(ts, text) matches Some(
                k,
            ) && k <= j),
    decreases ts.len(),
{
    if ts.len() > 0 && !token_is(ts[0], text) {
        lemma_find_token(ts.drop_first(), text);
        assert forall|j: int| 0 <= j < ts.len() && token_is(#[trigger] ts[j], text) implies (find_token(
            ts,
            text,
        ) matches Some(k) && k <= j) by {
            assert(j > 0);
            assert(ts.drop_first()[j - 1] == ts[j]);
        }
    }
}

/// A LIN line: timestamp, channel name starting with `L`, hexadecimal frame
/// identifier, direction, decimal data length, the data bytes and an
/// optional `checksum = XX` after them.
pub open spec fn spec_parse_lin(toks: Seq<Seq<u8>>, ts: i64) -> Result<EventModel, AscFault> {
    if toks.len() < 3 {
        Err(AscFault::Missing("frame_id"@))
    } else {
        match spec_parse_unsigned(toks[2], 16, 255) {
            None => Err(AscFault::Invalid("frame_id"@, toks[2])),
            Some(fid) => if toks.len() < 4 {
                Err(AscFault::Missing("direction"@))
            } else {
                match spec_parse_direction(toks[3]) {
                    None => Err(AscFault::Invalid("direction"@, toks[3])),
                    Some(dir) => if toks.len() < 5 {
                        Err(AscFault::Missing("data length"@))
                    } else {
                        match spec_parse_unsigned(toks[4], 10, usize::MAX as int) {
                            None => Err(AscFault::Invalid("data length"@, toks[4])),
                            Some(n) => {
                                let rem = toks.subrange(5, toks.len() as int);
                                let ci = find_token(rem, "checksum"@);
                                let end = match ci {
                                    Some(k) => k,
                                    None => rem.len() as int,
                                };
                                match spec_payload(rem.subrange(0, end), n as nat) {
                                    Err(f) => Err(f),
                                    Ok(d) => {
                                        let cs = match ci {
                                            None => Ok(None),
                                            Some(k) => if k + 2 < rem.len() {
                                                match spec_parse_unsigned(rem[k + 2], 16, 255) {
                                                    None => Err(AscFault::Invalid("checksum"@, rem[k + 2])),
                                                    Some(v) => Ok(Some(v as u8)),
                                                }
                                            } else {
                                                Err(AscFault::Missing("checksum"@))
                                            },
                                        };
                                        match cs {
                                            Err(f) => Err(f),
                                            Ok(c) => Ok(
                                                EventModel::Lin {
                                                    timestamp_ns: ts as int,
                                                    channel: ChannelModel::Named(text_of(toks[1])),
                                                    frame_id: fid as u8,
                                                    direction: dir,
                                                    data: d,
                                                    checksum: c,
                                                },
                                            ),
                                        }
                                    },
                                }
                            },
                        }
                    },
                }
            },
        }
    }
}

/// Parses a LIN line.
pub fn parse_lin(toks: &Vec<&[u8]>, timestamp_ns: i64) -> (r: Result<LogEvent, AscParseError>)
    requires
        toks@.len() >= 2,
    ensures
        event_agrees(r, spec_parse_lin(views(toks@), timestamp_ns)),
{
    let ghost t = views(toks@);
    proof {
        reveal_strlit("frame_id");
        reveal_strlit("direction");
        reveal_strlit("data length");
        reveal_strlit("checksum");
    }
    let len = toks.len();
    assert(t[1] == toks@[1]@);
    let channel = string_from_utf8_lossy(toks[1]);
    if len < 3 {
        return Err(AscParseError::MissingField("frame_id"));
    }
    assert(t[2] == toks@[2]@);
    let frame_id = match parse_hex_byte("frame_id", toks[2]) {
        Ok(v) => v,
        Err(e) => return Err(e),
    };
    if len < 4 {
        return Err(AscParseError::MissingField("direction"));
    }
    assert(t[3] == toks@[3]@);
    let direction = match parse_direction(toks[3]) {
        Ok(d) => d,
        Err(e) => return Err(e),
    };
    if len < 5 {
        return Err(AscParseError::MissingField("data length"));
    }
    assert(t[4] == toks@[4]@);
    let n = match parse_decimal_usize("data length", toks[4], toks[4]) {
        Ok(v) => v,
        Err(e) => return Err(e),
    };
    let ghost rem = t.subrange(5, t.len() as int);
    proof {
        lemma_find_token(rem, "checksum"@);
    }
    let mut k: usize = 5;
    while k < len && !text_is(toks[k], "checksum")
        invariant
            5 <= k <= len,
            len == toks@.len(),
            t == views(toks@),
            rem == t.subrange(5, t.len() as int),
            vstd::string::is_ascii("checksum"),
            forall|j: int| 0 <= j < k - 5 ==> !token_is(#[trigger] rem[j], "checksum"@),
        decreases len - k,
    {
        assert(rem[k - 5] == toks@[k as int]@);
        k = k + 1;
    }
    let found = k < len;
    proof {
        if found {
            assert(rem[k - 5] == toks@[k as int]@);
            assert(token_is(rem[k - 5], "checksum"@));
            assert(find_token(rem, "checksum"@) == Some(k - 5));
        } else {
            assert(find_token(rem, "checksum"@) is None);
        }
    }
    assert(views(toks@).subrange(5, k as int) == rem.subrange(0, k - 5));
    let data = match parse_payload(toks, 5, k, n) {
        Ok(bytes) => Payload::from(bytes),
        Err(e) => return Err(e),
    };
    let checksum = if found {
        if len - k > 2 {
            assert(rem[k - 5 + 2] == toks@[k + 2]@);
            match parse_hex_byte("checksum", toks[k + 2]) {
                Ok(v) => Some(v),
                Err(e) => return Err(e),
            }
        } else {
            return Err(AscParseError::MissingField("checksum"));
        }
    } else {
        None
    };
    Ok(
        LogEvent::Lin(
            LinLogEvent {
                timestamp_ns,
                channel: Channel::Named(channel),
                frame_id,
                direction,
                data,
                checksum,
            },
        ),
    )
}

/// The event of a line, if it holds one: empty lines, header lines and
/// lines whose first token is not a timestamp hold none; the second token
/// selects the record kind (`Start`, `CANFD`, a LIN channel `L...`, a
/// numeric CAN channel followed by an identifier and a direction), and any
/// other record is kept as an unknown event with the trimmed line.
pub open spec fn spec_parse_line(b: Seq<u8>) -> Result<Option<EventModel>, AscFault> {
    let t = trimmed(b);
    let toks = tokens(b);
    if t.len() == 0 || is_metadata_line(t) || toks.len() == 0 {
        Ok(None)
    } else {
        match spec_timestamp_ns(toks[0]) {
            None => Ok(None),
            Some(ts) => {
                if toks.len() < 2 {
                    Ok(None)
                } else {
                    let second = toks[1];
                    if token_is(second, "Start"@) {
                        Ok(None)
                    } else if token_is(second, "CANFD"@) {
                        some_event(spec_parse_canfd(toks, ts))
                    } else if second.len() > 0 && second[0] == 76 {
                        some_event(spec_parse_lin(toks, ts))
                    } else if all_digits(second, 10) && toks.len() < 3 {
                        Ok(None)
                    } else if all_digits(second, 10) && toks.len() >= 4 && spec_parse_direction(
                        toks[3],
                    ) is Some {
                        some_event(spec_parse_classic(toks, ts))
                    } else {
                        Ok(
                            Some(
                                EventModel::Unknown {
                                    timestamp_ns: Some(ts as int),
                                    kind: text_of(second),
                                    raw: text_of(t),
                                },
                            ),
                        )
                    }
                }
            },
        }
    }
}

/// A parsed event as an optional event.
pub open spec fn some_event(r: Result<EventModel, AscFault>) -> Result<Option<EventModel>, AscFault> {
    match r {
        Ok(e) => Ok(Some(e)),
        Err(f) => Err(f),
    }
}

/// Agreement of an exec optional-event result with a spec one.
pub open spec fn opt_event_agrees(r: Result<Option<LogEvent>, AscParseError>, s: Result<Option<EventModel>, AscFault>) -> bool {
    match (r, s) {
        (Ok(Some(e)), Ok(Some(m))) => e@ == m,
        (Ok(None), Ok(None)) => true,
        (Err(e), Err(f)) => is_asc_fault(e, f),
        _ => false,
    }
}

/// Wraps a parsed event.
fn wrap_event(r: Result<LogEvent, AscParseError>) -> (o: Result<Option<LogEvent>, AscParseError>)
    ensures
        forall|s: Result<EventModel, AscFault>| event_agrees(r, s) ==> opt_event_agrees(o, some_event(s)),
{
    match r {
        Ok(e) => Ok(Some(e)),
        Err(e) => Err(e),
    }
}

/// Parses the bytes of one line.
pub fn parse_line_bytes(b: &[u8]) -> (r: Result<Option<LogEvent>, AscParseError>)
    ensures
        opt_event_agrees(r, spec_parse_line(b@)),
{
    let (toks, first, last) = split_tokens(b);
    let ghost ts = views(toks@);
    let t = &b[first..last];
    if t.len() == 0 || is_metadata_line_without_event(t) || toks.len() == 0 {
        return Ok(None);
    }
    assert(ts[0] == toks@[0]@);
    let timestamp_ns = match parse_timestamp_ns(toks[0]) {
        Some(v) => v,
        None => return Ok(None),
    };
    if toks.len() < 2 {
        return Ok(None);
    }
    let second = toks[1];
    assert(ts[1] == second@);
    proof {
        reveal_strlit("Start");
        reveal_strlit("CANFD");
    }
    if text_is(second, "Start") {
        return Ok(None);
    }
    if text_is(second, "CANFD") {
        return wrap_event(parse_canfd(&toks, timestamp_ns));
    }
    if second.len() > 0 && second[0] == 76 {
        return wrap_event(parse_lin(&toks, timestamp_ns));
    }
    let mut digits = true;
    let mut i: usize = 0;
    while i < second.len()
        invariant
            i <= second@.len(),
            digits == all_digits(second@.subrange(0, i as int), 10),
        decreases second@.len() - i,
    {
        let ghost pre = second@.subrange(0, i as int);
        let ghost next = second@.subrange(0, i + 1);
        let c = second[i];
        assert(all_digits(next, 10) == (all_digits(pre, 10) && 48 <= c && c <= 57)) by {
            assert(next[i as int] == c);
            if all_digits(pre, 10) && 48 <= c && c <= 57 {
                assert forall|k: int| 0 <= k < next.len() implies digit_value(#[trigger] next[k], 10)
                    >= 0 by {
                    if k < i {
                        assert(next[k] == pre[k]);
                    }
                }
            }
            if all_digits(next, 10) {
                assert(digit_value(next[i as int], 10) >= 0);
                assert forall|k: int| 0 <= k < pre.len() implies digit_value(#[trigger] pre[k], 10)
                    >= 0 by {
                    assert(next[k] == pre[k]);
                }
            }
        }
        digits = digits && 48 <= c && c <= 57;
        i = i + 1;
    }
    assert(second@.subrange(0, second@.len() as int) =~= second@);
    if digits {
        if toks.len() < 3 {
            return Ok(None);
        }
        if toks.len() >= 4 {
            assert(ts[3] == toks@[3]@);
            let direction_ok = match parse_direction(toks[3]) {
                Ok(_) => true,
                Err(_) => false,
            };
            if direction_ok {
                return wrap_event(parse_classic_can(&toks, timestamp_ns));
            }
        }
    }
    let kind = string_from_utf8_lossy(second);
    let raw = string_from_utf8_lossy(t);
    Ok(Some(LogEvent::Unknown(UnknownEvent { timestamp_ns: Some(timestamp_ns), kind, raw })))
}

/// Parses one ASC line into a log event.
pub fn parse_line(line: &str) -> (r: Result<Option<LogEvent>, AscParseError>)
    ensures
        opt_event_agrees(r, spec_parse_line(line.spec_bytes())),
{
    parse_line_bytes(line.as_bytes())
}

} // verus!
