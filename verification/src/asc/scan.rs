//! Counting the CAN and CAN FD frames of ASC lines without building events.
use vstd::prelude::*;

use crate::asc::parse::{is_metadata_line, is_metadata_line_without_event, spec_payload, text_is, token_is};
use crate::asc::syntax::{
    all_digits, digit_value, is_asc_fault, parse_decimal_u16, parse_decimal_u8, parse_decimal_usize,
    parse_direction, parse_hex_byte, parse_hex_u32, spec_parse_direction,
    spec_parse_hex_id, spec_parse_unsigned, split_tokens, tokens, trimmed, views,
    AscFault, AscParseError,
};
use crate::asc::timestamp::{parse_timestamp_ns, spec_timestamp_ns};

verus! {

/// Aggregate counts from a scan of CAN and CAN FD lines.
#[derive(Debug, Clone, Copy, PartialEq, Eq, Structural)]
pub struct AscCanStats {
    /// Total CAN and CAN FD frames scanned.
    pub messages: usize,
    /// Classical CAN frames scanned.
    pub classic: usize,
    /// CAN FD frames scanned.
    pub fd: usize,
    /// Payload bytes decoded while scanning.
    pub payload_bytes: usize,
}

/// All counts zero.
pub open spec fn zero_asc_stats() -> AscCanStats {
    AscCanStats { messages: 0, classic: 0, fd: 0, payload_bytes: 0 }
}

impl Default for AscCanStats {
    fn default() -> (s: Self)
        ensures
            s == zero_asc_stats(),
    {
        AscCanStats { messages: 0, classic: 0, fd: 0, payload_bytes: 0 }
    }
}

/// The counts after one more frame with `n` payload bytes (counts wrap
/// around at the bound of `usize`).
pub open spec fn add_asc_frame(s: AscCanStats, fd: bool, n: usize) -> AscCanStats {
    AscCanStats {
        messages: s.messages.wrapping_add(1),
        classic: if fd {
            s.classic
        } else {
            s.classic.wrapping_add(1)
        },
        fd: if fd {
            s.fd.wrapping_add(1)
        } else {
            s.fd
        },
        payload_bytes: s.payload_bytes.wrapping_add(n),
    }
}

/// Whether a token is `0` or `1`.
pub open spec fn is_flag_token(t: Seq<u8>) -> bool {
    token_is(t, "0"@) || token_is(t, "1"@)
}

/// A frame kind `d` or `D`.
pub open spec fn is_data_kind(t: Seq<u8>) -> bool {
    t.len() == 1 && (t[0] == 100 || t[0] == 68)
}

/// Checks `n` data tokens from the tokens `start..end`.
pub fn scan_payload_tokens(toks: &Vec<&[u8]>, start: usize, end: usize, n: usize) -> (r: Result<(), AscParseError>)
    requires
        start <= end <= toks@.len(),
    ensures
        match (r, spec_payload(views(toks@).subrange(start as int, end as int), n as nat)) {
            (Ok(_), Ok(_)) => true,
            (Err(e), Err(f)) => is_asc_fault(e, f),
            _ => false,
        },
{
    let ghost all = views(toks@).subrange(start as int, end as int);
    let mut i: usize = 0;
    assert(all.subrange(0, all.len() as int) =~= all);
    while i < n
        invariant
            start <= end <= toks@.len(),
            all == views(toks@).subrange(start as int, end as int),
            i <= n,
            i <= all.len(),
            (spec_payload(all, n as nat) is Ok) == (spec_payload(
                all.subrange(i as int, all.len() as int),
                (n - i) as nat,
            ) is Ok),
            spec_payload(all.subrange(i as int, all.len() as int), (n - i) as nat) matches Err(f)
                ==> spec_payload(all, n as nat) == Err::<Seq<u8>, AscFault>(f),
        decreases n - i,
    {
        let ghost rest = all.subrange(i as int, all.len() as int);
        if i >= end - start {
            assert(rest.len() == 0);
            proof {
                reveal_strlit("data");
            }
            return Err(AscParseError::MissingField("data"));
        }
        let token = toks[start + i];
        assert(rest[0] == token@);
        match parse_hex_byte("data", token) {
            Ok(_) => {},
            Err(e) => return Err(e),
        }
        assert(rest.drop_first() =~= all.subrange(i + 1, all.len() as int));
        i = i + 1;
    }
    Ok(())
}

/// Counts a classical CAN line: its fields are checked as when parsing
/// (the channel, identifier, direction, frame kind and DLC must be there and
/// valid), and a data frame's bytes, at most eight, must be valid.
pub open spec fn spec_scan_classic(toks: Seq<Seq<u8>>, s: AscCanStats) -> Result<AscCanStats, AscFault> {
    match spec_parse_unsigned(toks[1], 10, 65535) {
        None => Err(AscFault::Invalid("channel"@, toks[1])),
        Some(_) => if toks.len() < 3 {
            Err(AscFault::Missing("arbitration_id"@))
        } else {
            match spec_parse_hex_id(toks[2]) {
                None => Err(AscFault::Invalid("arbitration_id"@, toks[2])),
                Some(_) => if toks.len() < 4 {
                    Err(AscFault::Missing("direction"@))
                } else {
                    match spec_parse_direction(toks[3]) {
                        None => Err(AscFault::Invalid("direction"@, toks[3])),
                        Some(_) => if toks.len() < 5 {
                            Err(AscFault::Missing("frame kind"@))
                        } else if toks.len() < 6 {
                            Err(AscFault::Missing("dlc"@))
                        } else {
                            match spec_parse_unsigned(toks[5], 16, 255) {
                                None => Err(AscFault::Invalid("dlc"@, toks[5])),
                                Some(dlc) => {
                                    let n: usize = if dlc <= 8 {
                                        dlc as usize
                                    } else {
                                        8
                                    };
                                    let remote = toks[4].len() == 1 && (toks[4][0] == 114
                                        || toks[4][0] == 82);
                                    if remote {
                                        Ok(add_asc_frame(s, false, 0))
                                    } else {
                                        match spec_payload(toks.subrange(6, toks.len() as int), n as nat) {
                                            Err(f) => Err(f),
                                            Ok(_) => Ok(add_asc_frame(s, false, n)),
                                        }
                                    }
                                },
                            }
                        },
                    }
                },
            }
        },
    }
}

/// Counts a classical CAN line.
pub fn scan_classic_can_stats(toks: &Vec<&[u8]>, stats: &mut AscCanStats) -> (r: Result<(), AscParseError>)
    requires
        toks@.len() >= 2,
    ensures
        match (r, spec_scan_classic(views(toks@), *old(stats))) {
            (Ok(_), Ok(s)) => *final(stats) == s,
            (Err(e), Err(f)) => is_asc_fault(e, f) && *final(stats) == *old(stats),
            _ => false,
        },
{
    let ghost t = views(toks@);
    proof {
        reveal_strlit("arbitration_id");
        reveal_strlit("direction");
        reveal_strlit("frame kind");
        reveal_strlit("dlc");
    }
    let len = toks.len();
    assert(t[1] == toks@[1]@);
    match parse_decimal_u16("channel", toks[1]) {
        Ok(_) => {},
        Err(e) => return Err(e),
    }
    if len < 3 {
        return Err(AscParseError::MissingField("arbitration_id"));
    }
    assert(t[2] == toks@[2]@);
    match parse_hex_u32("arbitration_id", toks[2]) {
        Ok(_) => {},
        Err(e) => return Err(e),
    }
    if len < 4 {
        return Err(AscParseError::MissingField("direction"));
    }
    assert(t[3] == toks@[3]@);
    match parse_direction(toks[3]) {
        Ok(_) => {},
        Err(e) => return Err(e),
    }
    if len < 5 {
        return Err(AscParseError::MissingField("frame kind"));
    }
    if len < 6 {
        return Err(AscParseError::MissingField("dlc"));
    }
    assert(t[4] == toks@[4]@ && t[5] == toks@[5]@);
    let kind = toks[4];
    let dlc = match parse_hex_byte("dlc", toks[5]) {
        Ok(v) => v,
        Err(e) => return Err(e),
    };
    let n: usize = if dlc <= 8 { dlc as usize } else { 8 };
    let remote = kind.len() == 1 && (kind[0] == 114 || kind[0] == 82);
    if !remote {
        assert(views(toks@).subrange(6, len as int) == t.subrange(6, t.len() as int));
        match scan_payload_tokens(toks, 6, len, n) {
            Ok(_) => {},
            Err(e) => return Err(e),
        }
        stats.payload_bytes = stats.payload_bytes.wrapping_add(n);
    } else {
        stats.payload_bytes = stats.payload_bytes.wrapping_add(0);
    }
    stats.messages = stats.messages.wrapping_add(1);
    stats.classic = stats.classic.wrapping_add(1);
    Ok(())
}

/// Counts a CAN FD line: the channel, identifier, direction, BRS and ESI
/// flags (`0` or `1`), frame kind `d`, decimal DLC code and data length must
/// be there and valid (an invalid data length is reported with the DLC
/// token), and so must the data bytes.
pub open spec fn spec_scan_canfd(toks: Seq<Seq<u8>>, s: AscCanStats) -> Result<AscCanStats, AscFault> {
    if toks.len() < 3 {
        Err(AscFault::Missing("channel"@))
    } else if spec_parse_unsigned(toks[2], 10, 65535) is None {
        Err(AscFault::Invalid("channel"@, toks[2]))
    } else if toks.len() < 4 {
        Err(AscFault::Missing("arbitration_id"@))
    } else if spec_parse_hex_id(toks[3]) is None {
        Err(AscFault::Invalid("arbitration_id"@, toks[3]))
    } else if toks.len() < 5 {
        Err(AscFault::Missing("direction"@))
    } else if spec_parse_direction(toks[4]) is None {
        Err(AscFault::Invalid("direction"@, toks[4]))
    } else if toks.len() < 6 {
        Err(AscFault::Missing("brs"@))
    } else if toks.len() < 7 {
        Err(AscFault::Missing("esi"@))
    } else if !is_flag_token(toks[5]) {
        Err(AscFault::Invalid("brs"@, toks[5]))
    } else if !is_flag_token(toks[6]) {
        Err(AscFault::Invalid("esi"@, toks[6]))
    } else if toks.len() < 8 {
        Err(AscFault::Missing("frame kind"@))
    } else if !is_data_kind(toks[7]) {
        Err(AscFault::Invalid("frame kind"@, toks[7]))
    } else if toks.len() < 9 {
        Err(AscFault::Missing("dlc"@))
    } else if spec_parse_unsigned(toks[8], 10, 255) is None {
        Err(AscFault::Invalid("dlc"@, toks[8]))
    } else if toks.len() < 10 {
        Err(AscFault::Missing("data length"@))
    } else {
        match spec_parse_unsigned(toks[9], 10, usize::MAX as int) {
            None => Err(AscFault::Invalid("data length"@, toks[8])),
            Some(n) => match spec_payload(toks.subrange(10, toks.len() as int), n as nat) {
                Err(f) => Err(f),
                Ok(_) => Ok(add_asc_frame(s, true, n as usize)),
            },
        }
    }
}

/// Counts a CAN FD line.
pub fn scan_canfd_stats(toks: &Vec<&[u8]>, stats: &mut AscCanStats) -> (r: Result<(), AscParseError>)
    ensures
        match (r, spec_scan_canfd(views(toks@), *old(stats))) {
            (Ok(_), Ok(s)) => *final(stats) == s,
            (Err(e), Err(f)) => is_asc_fault(e, f) && *final(stats) == *old(stats),
            _ => false,
        },
{
    let ghost t = views(toks@);
    proof {
        reveal_strlit("channel");
        reveal_strlit("arbitration_id");
        reveal_strlit("direction");
        reveal_strlit("brs");
        reveal_strlit("esi");
        reveal_strlit("frame kind");
        reveal_strlit("dlc");
        reveal_strlit("data length");
        reveal_strlit("0");
        reveal_strlit("1");
    }
    let len = toks.len();
    if len < 3 {
        return Err(AscParseError::MissingField("channel"));
    }
    assert(t[2] == toks@[2]@);
    match parse_decimal_u16("channel", toks[2]) {
        Ok(_) => {},
        Err(e) => return Err(e),
    }
    if len < 4 {
        return Err(AscParseError::MissingField("arbitration_id"));
    }
    assert(t[3] == toks@[3]@);
    match parse_hex_u32("arbitration_id", toks[3]) {
        Ok(_) => {},
        Err(e) => return Err(e),
    }
    if len < 5 {
        return Err(AscParseError::MissingField("direction"));
    }
    assert(t[4] == toks@[4]@);
    match parse_direction(toks[4]) {
        Ok(_) => {},
        Err(e) => return Err(e),
    }
    if len < 6 {
        return Err(AscParseError::MissingField("brs"));
    }
    if len < 7 {
        return Err(AscParseError::MissingField("esi"));
    }
    assert(t[5] == toks@[5]@ && t[6] == toks@[6]@);
    let brs = toks[5];
    let esi = toks[6];
    if !(text_is(brs, "0") || text_is(brs, "1")) {
        return Err(crate::asc::syntax::invalid_token("brs", brs));
    }
    if !(text_is(esi, "0") || text_is(esi, "1")) {
        return Err(crate::asc::syntax::invalid_token("esi", esi));
    }
    if len < 8 {
        return Err(AscParseError::MissingField("frame kind"));
    }
    assert(t[7] == toks@[7]@);
    let kind = toks[7];
    if !(kind.len() == 1 && (kind[0] == 100 || kind[0] == 68)) {
        return Err(crate::asc::syntax::invalid_token("frame kind", kind));
    }
    if len < 9 {
        return Err(AscParseError::MissingField("dlc"));
    }
    assert(t[8] == toks@[8]@);
    let dlc = toks[8];
    match parse_decimal_u8("dlc", dlc) {
        Ok(_) => {},
        Err(e) => return Err(e),
    }
    if len < 10 {
        return Err(AscParseError::MissingField("data length"));
    }
    assert(t[9] == toks@[9]@);
    let n = match parse_decimal_usize("data length", toks[9], dlc) {
        Ok(v) => v,
        Err(e) => return Err(e),
    };
    assert(views(toks@).subrange(10, len as int) == t.subrange(10, t.len() as int));
    match scan_payload_tokens(toks, 10, len, n) {
        Ok(_) => {},
        Err(e) => return Err(e),
    }
    stats.messages = stats.messages.wrapping_add(1);
    stats.fd = stats.fd.wrapping_add(1);
    stats.payload_bytes = stats.payload_bytes.wrapping_add(n);
    Ok(())
}

/// The counts after scanning one line: only CAN and CAN FD records count;
/// other lines leave the counts as they are.
pub open spec fn spec_scan_line(b: Seq<u8>, s: AscCanStats) -> Result<AscCanStats, AscFault> {
    let t = trimmed(b);
    let toks = tokens(b);
    if t.len() == 0 || is_metadata_line(t) || toks.len() == 0 {
        Ok(s)
    } else if spec_timestamp_ns(toks[0]) is None || toks.len() < 2 {
        Ok(s)
    } else {
        let second = toks[1];
        if token_is(second, "Start"@) || (second.len() > 0 && second[0] == 76) {
            Ok(s)
        } else if token_is(second, "CANFD"@) {
            spec_scan_canfd(toks, s)
        } else if all_digits(second, 10) {
            spec_scan_classic(toks, s)
        } else {
            Ok(s)
        }
    }
}

/// Counts the frame of one line, if it is a CAN or CAN FD record; the counts
/// are unchanged on an error.
pub fn scan_can_stats_line(b: &[u8], stats: &mut AscCanStats) -> (r: Result<(), AscParseError>)
    ensures
        match (r, spec_scan_line(b@, *old(stats))) {
            (Ok(_), Ok(s)) => *final(stats) == s,
            (Err(e), Err(f)) => is_asc_fault(e, f) && *final(stats) == *old(stats),
            _ => false,
        },
{
    let (toks, first, last) = split_tokens(b);
    let ghost ts = views(toks@);
    let t = &b[first..last];
    if t.len() == 0 || is_metadata_line_without_event(t) || toks.len() == 0 {
        return Ok(());
    }
    assert(ts[0] == toks@[0]@);
    if parse_timestamp_ns(toks[0]).is_none() {
        return Ok(());
    }
    if toks.len() < 2 {
        return Ok(());
    }
    let second = toks[1];
    assert(ts[1] == second@);
    proof {
        reveal_strlit("Start");
        reveal_strlit("CANFD");
    }
    if text_is(second, "Start") || (second.len() > 0 && second[0] == 76) {
        return Ok(());
    }
    if text_is(second, "CANFD") {
        return scan_canfd_stats(&toks, stats);
    }
    let mut digits = true;
    let mut i: usize = 0;
    while i < second.len()
        invariant
            i <= second@.len(),
            digits == all_digits(second@.subrange(0, i as int), 10),
        decreases second@.len() - i,
    {
        let ghost pre = second@.subrange(0, i as int);
        let ghost next = second@.subrange(0, i + 1);
        let c = second[i];
        assert(all_digits(next, 10) == (all_digits(pre, 10) && 48 <= c && c <= 57)) by {
            assert(next[i as int] == c);
            if all_digits(pre, 10) && 48 <= c && c <= 57 {
                assert forall|k: int| 0 <= k < next.len() implies digit_value(#[trigger] next[k], 10)
                    >= 0 by {
                    if k < i {
                        assert(next[k] == pre[k]);
                    }
                }
            }
            if all_digits(next, 10) {
                assert(digit_value(next[i as int], 10) >= 0);
                assert forall|k: int| 0 <= k < pre.len() implies digit_value(#[trigger] pre[k], 10)
                    >= 0 by {
                    assert(next[k] == pre[k]);
                }
            }
        }
        digits = digits && 48 <= c && c <= 57;
        i = i + 1;
    }
    assert(second@.subrange(0, second@.len() as int) =~= second@);
    if digits {
        scan_classic_can_stats(&toks, stats)
    } else {
        Ok(())
    }
}

} // verus!
