//! Counting frames without building events gives the counts of the frames
//! that collecting the events yields.
use vstd::prelude::*;
use vstd::utf8::valid_utf8;

use crate::asc::laws::lemma_trailing_ws;
use crate::asc::parse::{
    is_remote_kind, some_event, spec_parse_canfd, spec_parse_classic, spec_parse_line, spec_payload,
    token_is,
};
use crate::asc::reader::{line_end, lemma_line_end, spec_can_events, spec_scan, strip_newline};
use crate::asc::scan::{add_asc_frame, spec_scan_canfd, spec_scan_classic, spec_scan_line, zero_asc_stats, AscCanStats};
use crate::asc::syntax::{
    all_digits, lemma_digits_value_nonneg, spec_parse_direction, spec_parse_unsigned, unsigned_body, tokens, trimmed,
    AscFault,
};
use crate::asc::timestamp::spec_timestamp_ns;
use crate::event::{
    classic_count, fd_count, frame_bytes, frames_fit, is_can_or_fd, lemma_wrap_add, lemma_wrapping_add,
    usize_wrap, EventModel,
};

verus! {

/// The counts after one more event: CAN and CAN FD frames are counted with
/// their payload length, other events leave the counts as they are.
pub open spec fn add_event(s: AscCanStats, e: EventModel) -> AscCanStats {
    match e {
        EventModel::Can { data, .. } => add_asc_frame(s, false, data.len() as usize),
        EventModel::CanFd { data, .. } => add_asc_frame(s, true, data.len() as usize),
        _ => s,
    }
}

/// The counts after the events, in order, starting from `s`.
pub open spec fn count_events(s: AscCanStats, events: Seq<EventModel>) -> AscCanStats
    decreases events.len(),
{
    if events.len() == 0 {
        s
    } else {
        count_events(add_event(s, events[0]), events.drop_first())
    }
}

/// Parsed data bytes are as many as asked for.
proof fn lemma_payload_len(ts: Seq<Seq<u8>>, n: nat)
    ensures
        spec_payload(ts, n) matches Ok(d) ==> d.len() == n,
    decreases n,
{
    if n > 0 && ts.len() > 0 {
        lemma_payload_len(ts.drop_first(), (n - 1) as nat);
    }
}

/// A line without its line break has the tokens and trimmed text of the
/// line.
proof fn lemma_strip_newline(b: Seq<u8>)
    ensures
        tokens(strip_newline(b)) == tokens(b),
        trimmed(strip_newline(b)) == trimmed(b),
{
    let a = if b.len() > 0 && b.last() == 10 {
        b.drop_last()
    } else {
        b
    };
    if b.len() > 0 && b.last() == 10 {
        assert(b =~= a + seq![10u8]);
        lemma_trailing_ws(a, 10);
    }
    if a.len() > 0 && a.last() == 13 {
        assert(a =~= a.drop_last() + seq![13u8]);
        lemma_trailing_ws(a.drop_last(), 13);
    }
}

/// When both a line's event and its counts can be had, the counts are those
/// of the event.
proof fn lemma_scan_line_counts_event(b: Seq<u8>, s: AscCanStats)
    requires
        spec_parse_line(strip_newline(b)) is Ok,
        spec_scan_line(b, s) is Ok,
    ensures
        spec_scan_line(b, s) == Ok::<AscCanStats, AscFault>(match spec_parse_line(strip_newline(b)) {
            Ok(Some(ev)) => add_event(s, ev),
            _ => s,
        }),
{
    lemma_strip_newline(b);
    let toks = tokens(b);
    let t = trimmed(b);
    if !(t.len() == 0 || crate::asc::parse::is_metadata_line(t) || toks.len() == 0) {
        if let Some(ts) = spec_timestamp_ns(toks[0]) {
            if toks.len() >= 2 {
                let second = toks[1];
                if token_is(second, "Start"@) {
                } else if token_is(second, "CANFD"@) {
                    reveal_strlit("Start");
                    reveal_strlit("CANFD");
                    assert(!(second.len() > 0 && second[0] == 76)) by {
                        assert(crate::text::chars_of(second)[0] == 'C');
                    }
                    let p = spec_parse_canfd(toks, ts);
                    let q = spec_scan_canfd(toks, s);
                    assert(spec_parse_line(strip_newline(b)) == some_event(p));
                    assert(p is Ok);
                    assert(q is Ok);
                    assert(toks.len() >= 10);
                    let n = spec_parse_unsigned(toks[9], 10, usize::MAX as int)->Some_0;
                    lemma_digits_value_nonneg(unsigned_body(toks[9]), 10);
                    let pl = spec_payload(toks.subrange(10, toks.len() as int), n as nat);
                    lemma_payload_len(toks.subrange(10, toks.len() as int), n as nat);
                    assert(pl is Ok);
                    assert(q == Ok::<AscCanStats, AscFault>(add_asc_frame(s, true, n as usize)));
                    assert(p->Ok_0 matches EventModel::CanFd { data, .. } && data == pl->Ok_0);
                } else if second.len() > 0 && second[0] == 76 {
                } else if all_digits(second, 10) && toks.len() < 3 {
                } else if all_digits(second, 10) && toks.len() >= 4 && spec_parse_direction(toks[3]) is Some {
                    let p = spec_parse_classic(toks, ts);
                    let q = spec_scan_classic(toks, s);
                    assert(spec_parse_line(strip_newline(b)) == some_event(p));
                    assert(p is Ok);
                    assert(q is Ok);
                    assert(toks.len() >= 6);
                    assert(spec_parse_unsigned(toks[1], 10, 65535) is Some);
                    assert(crate::asc::syntax::spec_parse_hex_id(toks[2]) is Some);
                    assert(spec_parse_unsigned(toks[5], 16, 255) is Some);
                    let v = spec_parse_unsigned(toks[5], 16, 255)->Some_0;
                    lemma_digits_value_nonneg(unsigned_body(toks[5]), 16);
                    let n: nat = if v <= 8 {
                        v as nat
                    } else {
                        8
                    };
                    let remote = is_remote_kind(toks[4]);
                    if remote {
                        assert(q == Ok::<AscCanStats, AscFault>(add_asc_frame(s, false, 0)));
                        assert(p->Ok_0 matches EventModel::Can { data, .. } && data.len() == 0);
                    } else {
                        let pl = spec_payload(toks.subrange(6, toks.len() as int), n);
                        lemma_payload_len(toks.subrange(6, toks.len() as int), n);
                        assert(pl is Ok);
                        let m: usize = if v <= 8 {
                            v as usize
                        } else {
                            8
                        };
                        assert(m as nat == n);
                        assert(spec_payload(toks.subrange(6, toks.len() as int), m as nat) is Ok);
                        assert(q == Ok::<AscCanStats, AscFault>(add_asc_frame(s, false, n as usize)));
                        assert(p->Ok_0 matches EventModel::Can { data, .. } && data == pl->Ok_0);
                    }
                } else if all_digits(second, 10) {
                    assert(spec_scan_classic(toks, s) is Err);
                }
            }
        }
    }
}

proof fn lemma_scan_counts_events(d: Seq<u8>, pos: int, count: nat, s: AscCanStats, limit: usize)
    requires
        s.messages == count,
        count <= limit,
        spec_can_events(d, pos, count, limit as nat) is Ok,
        spec_scan(d, pos, s, limit) is Ok,
    ensures
        spec_scan(d, pos, s, limit) == Ok::<AscCanStats, AscFault>(count_events(s, spec_can_events(d, pos, count, limit as nat)->Ok_0)),
    decreases d.len() - pos,
{
    if pos < 0 || pos >= d.len() {
    } else if count >= limit {
    } else {
        lemma_line_end(d, pos);
        let e = line_end(d, pos);
        let line = d.subrange(pos, e);
        let p = spec_parse_line(strip_newline(line));
        lemma_scan_line_counts_event(line, s);
        let s2 = spec_scan_line(line, s)->Ok_0;
        match p {
            Ok(Some(ev)) => {
                if is_can_or_fd(ev) {
                    assert(s2.messages == count + 1);
                    lemma_scan_counts_events(d, e, count + 1, s2, limit);
                    let rest = spec_can_events(d, e, count + 1, limit as nat)->Ok_0;
                    assert((seq![ev] + rest).drop_first() =~= rest);
                } else {
                    assert(s2 == s);
                    lemma_scan_counts_events(d, e, count, s2, limit);
                }
            },
            _ => {
                lemma_scan_counts_events(d, e, count, s2, limit);
            },
        }
    }
}

/// Counting the CAN and CAN FD frames of an ASC log (`scan_can_stats_limit`)
/// gives the counts and payload lengths of the CAN and CAN FD events that
/// collecting them (`collect_can_events_limit`, with the same limit)
/// yields, whenever both succeed.
pub proof fn law_asc_scan_counts_collected_events(d: Seq<u8>, limit: usize)
    requires
        spec_can_events(d, 0, 0, limit as nat) is Ok,
        spec_scan(d, 0, zero_asc_stats(), limit) is Ok,
    ensures
        spec_scan(d, 0, zero_asc_stats(), limit) == Ok::<AscCanStats, AscFault>(count_events(zero_asc_stats(), spec_can_events(d, 0, 0, limit as nat)->Ok_0)),
{
    lemma_scan_counts_events(d, 0, 0, zero_asc_stats(), limit);
}

/// Counting frames from zero gives how many classical and FD frames there
/// are and their payload bytes, each wrapping around at `2^usize::BITS`
/// (and so exactly the counts wherever they fit in `usize`).
pub proof fn law_count_events_totals(events: Seq<EventModel>)
    requires
        frames_fit(events),
    ensures
        count_events(zero_asc_stats(), events) == (AscCanStats {
            messages: usize_wrap((classic_count(events) + fd_count(events)) as int),
            classic: usize_wrap(classic_count(events) as int),
            fd: usize_wrap(fd_count(events) as int),
            payload_bytes: usize_wrap(frame_bytes(events) as int),
        }),
{
    lemma_count_events_from(zero_asc_stats(), events);
}

proof fn lemma_count_events_from(s: AscCanStats, events: Seq<EventModel>)
    requires
        frames_fit(events),
    ensures
        count_events(s, events) == (AscCanStats {
            messages: usize_wrap(s.messages + classic_count(events) + fd_count(events)),
            classic: usize_wrap(s.classic + classic_count(events)),
            fd: usize_wrap(s.fd + fd_count(events)),
            payload_bytes: usize_wrap(s.payload_bytes + frame_bytes(events)),
        }),
    decreases events.len(),
{
    let m = usize::MAX as int + 1;
    if events.len() == 0 {
        vstd::arithmetic::div_mod::lemma_small_mod(s.messages as nat, m as nat);
        vstd::arithmetic::div_mod::lemma_small_mod(s.classic as nat, m as nat);
        vstd::arithmetic::div_mod::lemma_small_mod(s.fd as nat, m as nat);
        vstd::arithmetic::div_mod::lemma_small_mod(s.payload_bytes as nat, m as nat);
    } else {
        let e = events[0];
        let rest = events.drop_first();
        assert(frames_fit(rest)) by {
            assert forall|i: int| 0 <= i < rest.len() implies match #[trigger] rest[i] {
                EventModel::Can { data, .. } => data.len() <= usize::MAX,
                EventModel::CanFd { data, .. } => data.len() <= usize::MAX,
                _ => true,
            } by {
                assert(rest[i] == events[i + 1]);
            }
        }
        lemma_count_events_from(add_event(s, e), rest);
        let cr = classic_count(rest);
        let fr = fd_count(rest);
        let br = frame_bytes(rest);
        match e {
            EventModel::Can { data, .. } => {
                assert(data.len() <= usize::MAX);
                let n = data.len() as usize;
                lemma_wrapping_add(s.messages, 1);
                lemma_wrapping_add(s.classic, 1);
                lemma_wrapping_add(s.payload_bytes, n);
                lemma_wrap_add(s.messages + 1, (cr + fr) as int);
                lemma_wrap_add(s.classic + 1, cr as int);
                lemma_wrap_add(s.payload_bytes + n, br as int);
            },
            EventModel::CanFd { data, .. } => {
                assert(data.len() <= usize::MAX);
                let n = data.len() as usize;
                lemma_wrapping_add(s.messages, 1);
                lemma_wrapping_add(s.fd, 1);
                lemma_wrapping_add(s.payload_bytes, n);
                lemma_wrap_add(s.messages + 1, (cr + fr) as int);
                lemma_wrap_add(s.fd + 1, fr as int);
                lemma_wrap_add(s.payload_bytes + n, br as int);
            },
            _ => {},
        }
    }
}

/// Counting the CAN and CAN FD frames of an ASC log from zero gives how
/// many classical and FD frames collecting them yields and their payload
/// bytes (each wrapping around at `2^usize::BITS`), whenever both succeed.
pub proof fn law_asc_scan_totals(d: Seq<u8>, limit: usize)
    requires
        spec_can_events(d, 0, 0, limit as nat) is Ok,
        spec_scan(d, 0, zero_asc_stats(), limit) is Ok,
        frames_fit(spec_can_events(d, 0, 0, limit as nat)->Ok_0),
    ensures
        ({
            let evs = spec_can_events(d, 0, 0, limit as nat)->Ok_0;
            spec_scan(d, 0, zero_asc_stats(), limit) == Ok::<AscCanStats, AscFault>(
                AscCanStats {
                    messages: usize_wrap((classic_count(evs) + fd_count(evs)) as int),
                    classic: usize_wrap(classic_count(evs) as int),
                    fd: usize_wrap(fd_count(evs) as int),
                    payload_bytes: usize_wrap(frame_bytes(evs) as int),
                },
            )
        }),
{
    law_asc_scan_counts_collected_events(d, limit);
    law_count_events_totals(spec_can_events(d, 0, 0, limit as nat)->Ok_0);
}

} // verus!
