//! Reading whole ASC logs line by line.
use vstd::prelude::*;
use vstd::utf8::valid_utf8;

use crate::asc::parse::{parse_line_bytes, spec_parse_line};
use crate::asc::scan::{scan_can_stats_line, spec_scan_line, zero_asc_stats, AscCanStats};
use crate::asc::syntax::{is_asc_fault, AscFault, AscParseError};
use crate::event::{is_can_or_fd, models, EventModel, LogEvent};
use crate::external::{invalid_data_error, str_from_utf8};

verus! {

/// Where the line that starts at `i` ends: just after its `\n`, or at the
/// end of the data.
pub open spec fn line_end(d: Seq<u8>, i: int) -> int
    decreases d.len() - i,
{
    if i < 0 || i >= d.len() {
        d.len() as int
    } else if d[i] == 10 {
        i + 1
    } else {
        line_end(d, i + 1)
    }
}

pub proof fn lemma_line_end(d: Seq<u8>, i: int)
    requires
        0 <= i < d.len(),
    ensures
        i < line_end(d, i) <= d.len(),
    decreases d.len() - i,
{
    if d[i] != 10 {
        if i + 1 < d.len() {
            lemma_line_end(d, i + 1);
        } else {
            assert(line_end(d, i + 1) == d.len());
        }
    }
}

/// Finds the end of the line that starts at `i`.
pub fn find_line_end(d: &[u8], i: usize) -> (e: usize)
    requires
        i < d@.len(),
    ensures
        e == line_end(d@, i as int),
        i < e <= d@.len(),
{
    proof {
        lemma_line_end(d@, i as int);
    }
    let mut j = i;
    while j < d.len() && d[j] != 10
        invariant
            i <= j <= d@.len(),
            line_end(d@, i as int) == line_end(d@, j as int),
        decreases d@.len() - j,
    {
        j = j + 1;
    }
    if j < d.len() {
        j + 1
    } else {
        j
    }
}

/// A line without its `\n` and, before it, `\r`, as `lines` yields it.
pub open spec fn strip_newline(line: Seq<u8>) -> Seq<u8> {
    let a = if line.len() > 0 && line.last() == 10 {
        line.drop_last()
    } else {
        line
    };
    if a.len() > 0 && a.last() == 13 {
        a.drop_last()
    } else {
        a
    }
}

/// The events of the lines from `pos` on, at most `limit` in all with
/// `count` found before: reading stops at the end of the data or, before
/// the next line is parsed, once `limit` events are found; a line that is
/// not UTF-8 is an input/output error.
pub open spec fn spec_collect(d: Seq<u8>, pos: int, count: nat, limit: nat) -> Result<Seq<EventModel>, AscFault>
    decreases d.len() - pos,
{
    if pos < 0 || pos >= d.len() {
        Ok(Seq::empty())
    } else {
        let e = line_end(d, pos);
        let line = d.subrange(pos, e);
        if !valid_utf8(line) {
            Err(AscFault::Io)
        } else if count >= limit {
            Ok(Seq::empty())
        } else {
            proof {
                lemma_line_end(d, pos);
            }
            match spec_parse_line(line) {
                Err(f) => Err(f),
                Ok(None) => spec_collect(d, e, count, limit),
                Ok(Some(ev)) => match spec_collect(d, e, count + 1, limit) {
                    Ok(rest) => Ok(seq![ev] + rest),
                    Err(f) => Err(f),
                },
            }
        }
    }
}

/// The CAN and CAN FD events of the lines from `pos` on, at most `limit`
/// in all with `count` found before; other records are still parsed and
/// their errors reported. Lines are read without their line break, and the
/// limit is checked before a line is looked at.
pub open spec fn spec_can_events(d: Seq<u8>, pos: int, count: nat, limit: nat) -> Result<Seq<EventModel>, AscFault>
    decreases d.len() - pos,
{
    if pos < 0 || pos >= d.len() {
        Ok(Seq::empty())
    } else if count >= limit {
        Ok(Seq::empty())
    } else {
        let e = line_end(d, pos);
        let line = d.subrange(pos, e);
        if !valid_utf8(line) {
            Err(AscFault::Io)
        } else {
            proof {
                lemma_line_end(d, pos);
            }
            match spec_parse_line(strip_newline(line)) {
                Err(f) => Err(f),
                Ok(Some(ev)) => if is_can_or_fd(ev) {
                    match spec_can_events(d, e, count + 1, limit) {
                        Ok(rest) => Ok(seq![ev] + rest),
                        Err(f) => Err(f),
                    }
                } else {
                    spec_can_events(d, e, count, limit)
                },
                Ok(None) => spec_can_events(d, e, count, limit),
            }
        }
    }
}

/// The counts after scanning the lines from `pos` on, starting from `s`;
/// scanning stops at the end of the data or, after a line is read, once
/// `limit` frames are counted.
pub open spec fn spec_scan(d: Seq<u8>, pos: int, s: AscCanStats, limit: usize) -> Result<AscCanStats, AscFault>
    decreases d.len() - pos,
{
    if pos < 0 || pos >= d.len() {
        Ok(s)
    } else {
        let e = line_end(d, pos);
        let line = d.subrange(pos, e);
        if !valid_utf8(line) {
            Err(AscFault::Io)
        } else if s.messages >= limit {
            Ok(s)
        } else {
            proof {
                lemma_line_end(d, pos);
            }
            match spec_scan_line(line, s) {
                Err(f) => Err(f),
                Ok(s2) => spec_scan(d, e, s2, limit),
            }
        }
    }
}

/// Agreement of an exec event list with a spec one.
pub open spec fn events_agree(r: Result<Vec<LogEvent>, AscParseError>, s: Result<Seq<EventModel>, AscFault>) -> bool {
    match (r, s) {
        (Ok(v), Ok(m)) => models(v@) == m,
        (Err(e), Err(f)) => is_asc_fault(e, f),
        _ => false,
    }
}

/// Reader over the bytes of an ASC log.
pub struct AscReader {
    data: Vec<u8>,
}

impl AscReader {
    /// The bytes of the log.
    pub closed spec fn contents(&self) -> Seq<u8> {
        self.data@
    }

    /// Creates a reader over the bytes of a log.
    pub fn new(data: Vec<u8>) -> (r: Self)
        ensures
            r.contents() == data@,
    {
        AscReader { data }
    }

    /// Checks that a line is UTF-8.
    fn check_line(line: &[u8]) -> (r: Result<(), AscParseError>)
        ensures
            r is Ok <==> valid_utf8(line@),
            r matches Err(e) ==> is_asc_fault(e, AscFault::Io),
    {
        match str_from_utf8(line) {
            Some(_) => Ok(()),
            None => Err(AscParseError::Io(invalid_data_error())),
        }
    }

    /// Collects all events of the log.
    pub fn collect_events(self) -> (r: Result<Vec<LogEvent>, AscParseError>)
        ensures
            events_agree(r, spec_collect(self.contents(), 0, 0, usize::MAX as nat)),
    {
        self.collect_events_limit(usize::MAX)
    }

    /// Collects up to `limit` events of the log.
    pub fn collect_events_limit(self, limit: usize) -> (r: Result<Vec<LogEvent>, AscParseError>)
        ensures
            events_agree(r, spec_collect(self.contents(), 0, 0, limit as nat)),
    {
        let d = self.data.as_slice();
        let ghost whole = spec_collect(d@, 0, 0, limit as nat);
        let mut events: Vec<LogEvent> = Vec::new();
        let mut pos: usize = 0;
        assert(models(events@) =~= Seq::<EventModel>::empty());
        proof {
            match whole {
                Ok(m) => {
                    assert(Seq::<EventModel>::empty() + m =~= m);
                },
                Err(_) => {},
            }
        }
        while pos < d.len()
            invariant
                pos <= d@.len(),
                d@ == self.contents(),
                whole == spec_collect(d@, 0, 0, limit as nat),
                events@.len() <= limit,
                match spec_collect(d@, pos as int, events@.len() as nat, limit as nat) {
                    Ok(rest) => whole == Ok::<Seq<EventModel>, AscFault>(models(events@) + rest),
                    Err(f) => whole == Err::<Seq<EventModel>, AscFault>(f),
                },
            decreases d@.len() - pos,
        {
            let e = find_line_end(d, pos);
            let line = &d[pos..e];
            match Self::check_line(line) {
                Ok(_) => {},
                Err(err) => return Err(err),
            }
            if events.len() >= limit {
                assert(models(events@) + Seq::<EventModel>::empty() =~= models(events@));
                return Ok(events);
            }
            let ghost before = models(events@);
            match parse_line_bytes(line) {
                Err(err) => return Err(err),
                Ok(None) => {},
                Ok(Some(event)) => {
                    let ghost m = event@;
                    events.push(event);
                    proof {
                        assert(models(events@) =~= before.push(m));
                        match spec_collect(d@, e as int, events@.len() as nat, limit as nat) {
                            Ok(rest) => {
                                assert(before + (seq![m] + rest) =~= models(events@) + rest);
                            },
                            Err(_) => {},
                        }
                    }
                },
            }
            pos = e;
        }
        assert(models(events@) + Seq::<EventModel>::empty() =~= models(events@));
        Ok(events)
    }

    /// Collects up to `limit` CAN and CAN FD events of the log; other
    /// records are parsed and checked but not returned.
    #[verifier::rlimit(30)]
    pub fn collect_can_events_limit(self, limit: usize) -> (r: Result<Vec<LogEvent>, AscParseError>)
        ensures
            events_agree(r, spec_can_events(self.contents(), 0, 0, limit as nat)),
    {
        let d = self.data.as_slice();
        let ghost whole = spec_can_events(d@, 0, 0, limit as nat);
        let mut events: Vec<LogEvent> = Vec::new();
        let mut pos: usize = 0;
        assert(models(events@) =~= Seq::<EventModel>::empty());
        proof {
            match whole {
                Ok(m) => {
                    assert(Seq::<EventModel>::empty() + m =~= m);
                },
                Err(_) => {},
            }
        }
        while pos < d.len()
            invariant
                pos <= d@.len(),
                d@ == self.contents(),
                whole == spec_can_events(d@, 0, 0, limit as nat),
                events@.len() <= limit,
                match spec_can_events(d@, pos as int, events@.len() as nat, limit as nat) {
                    Ok(rest) => whole == Ok::<Seq<EventModel>, AscFault>(models(events@) + rest),
                    Err(f) => whole == Err::<Seq<EventModel>, AscFault>(f),
                },
            decreases d@.len() - pos,
        {
            if events.len() >= limit {
                assert(models(events@) + Seq::<EventModel>::empty() =~= models(events@));
                return Ok(events);
            }
            let e = find_line_end(d, pos);
            let line = &d[pos..e];
            match Self::check_line(line) {
                Ok(_) => {},
                Err(err) => return Err(err),
            }
            let stripped = strip_line_break(line);
            let ghost before = models(events@);
            match parse_line_bytes(stripped) {
                Err(err) => return Err(err),
                Ok(None) => {},
                Ok(Some(event)) => {
                    let is_frame = match &event {
                        LogEvent::Can(_) => true,
                        LogEvent::CanFd(_) => true,
                        _ => false,
                    };
                    if is_frame {
                        let ghost m = event@;
                        events.push(event);
                        proof {
                            assert(models(events@) =~= before.push(m));
                            match spec_can_events(d@, e as int, events@.len() as nat, limit as nat) {
                                Ok(rest) => {
                                    assert(before + (seq![m] + rest) =~= models(events@) + rest);
                                },
                                Err(_) => {},
                            }
                        }
                    }
                },
            }
            pos = e;
        }
        assert(models(events@) + Seq::<EventModel>::empty() =~= models(events@));
        Ok(events)
    }

    /// Parses up to `limit` CAN and CAN FD events, handing each to `visitor`
    /// as it is parsed; returns how many were handed over.
    #[verifier::rlimit(30)]
    pub fn for_each_can_event_limit<F: FnMut(&LogEvent)>(self, limit: usize, visitor: F) -> (r: Result<usize, AscParseError>)
        requires
            forall|e: &LogEvent| call_requires(visitor, (e,)),
        ensures
            match (r, spec_can_events(self.contents(), 0, 0, limit as nat)) {
                (Ok(n), Ok(m)) => n == m.len(),
                (Err(e), Err(f)) => is_asc_fault(e, f),
                _ => false,
            },
    {
        let mut visitor = visitor;
        let d = self.data.as_slice();
        let ghost whole = spec_can_events(d@, 0, 0, limit as nat);
        let ghost mut seen: Seq<EventModel> = Seq::empty();
        let mut count: usize = 0;
        let mut pos: usize = 0;
        proof {
            match whole {
                Ok(m) => {
                    assert(Seq::<EventModel>::empty() + m =~= m);
                },
                Err(_) => {},
            }
        }
        while pos < d.len()
            invariant
                pos <= d@.len(),
                d@ == self.contents(),
                whole == spec_can_events(d@, 0, 0, limit as nat),
                count <= limit,
                seen.len() == count,
                forall|e: &LogEvent| call_requires(visitor, (e,)),
                match spec_can_events(d@, pos as int, count as nat, limit as nat) {
                    Ok(rest) => whole == Ok::<Seq<EventModel>, AscFault>(seen + rest),
                    Err(f) => whole == Err::<Seq<EventModel>, AscFault>(f),
                },
            decreases d@.len() - pos,
        {
            if count >= limit {
                assert(seen + Seq::<EventModel>::empty() =~= seen);
                return Ok(count);
            }
            let e = find_line_end(d, pos);
            let line = &d[pos..e];
            match Self::check_line(line) {
                Ok(_) => {},
                Err(err) => return Err(err),
            }
            let stripped = strip_line_break(line);
            match parse_line_bytes(stripped) {
                Err(err) => return Err(err),
                Ok(None) => {},
                Ok(Some(event)) => {
                    let is_frame = match &event {
                        LogEvent::Can(_) => true,
                        LogEvent::CanFd(_) => true,
                        _ => false,
                    };
                    if is_frame {
                        visitor(&event);
                        let ghost m = event@;
                        proof {
                            match spec_can_events(d@, e as int, (count + 1) as nat, limit as nat) {
                                Ok(rest) => {
                                    assert(seen + (seq![m] + rest) =~= seen.push(m) + rest);
                                },
                                Err(_) => {},
                            }
                            seen = seen.push(m);
                        }
                        count = count + 1;
                    }
                },
            }
            pos = e;
        }
        assert(seen + Seq::<EventModel>::empty() =~= seen);
        Ok(count)
    }

    /// Counts up to `limit` CAN and CAN FD events of the log without keeping
    /// them.
    pub fn count_can_events_limit(self, limit: usize) -> (r: Result<usize, AscParseError>)
        ensures
            match (r, spec_can_events(self.contents(), 0, 0, limit as nat)) {
                (Ok(n), Ok(m)) => n == m.len(),
                (Err(e), Err(f)) => is_asc_fault(e, f),
                _ => false,
            },
    {
        self.for_each_can_event_limit(limit, |_event: &LogEvent| {})
    }

    /// Counts up to `limit` CAN and CAN FD frames of the log, with their
    /// payload bytes, without building events.
    pub fn scan_can_stats_limit(self, limit: usize) -> (r: Result<AscCanStats, AscParseError>)
        ensures
            match (r, spec_scan(self.contents(), 0, zero_asc_stats(), limit)) {
                (Ok(s), Ok(ss)) => s == ss,
                (Err(e), Err(f)) => is_asc_fault(e, f),
                _ => false,
            },
    {
        let d = self.data.as_slice();
        let mut stats = AscCanStats::default();
        let ghost whole = spec_scan(d@, 0, stats, limit);
        let mut pos: usize = 0;
        while pos < d.len()
            invariant
                pos <= d@.len(),
                d@ == self.contents(),
                whole == spec_scan(d@, 0, zero_asc_stats(), limit),
                whole == spec_scan(d@, pos as int, stats, limit),
            decreases d@.len() - pos,
        {
            let e = find_line_end(d, pos);
            let line = &d[pos..e];
            match Self::check_line(line) {
                Ok(_) => {},
                Err(err) => return Err(err),
            }
            if stats.messages >= limit {
                return Ok(stats);
            }
            match scan_can_stats_line(line, &mut stats) {
                Ok(_) => {},
                Err(err) => return Err(err),
            }
            pos = e;
        }
        Ok(stats)
    }
}

/// Drops a trailing `\n` and, before it, a `\r`.
pub fn strip_line_break(line: &[u8]) -> (s: &[u8])
    ensures
        s@ == strip_newline(line@),
{
    let mut end = line.len();
    if end > 0 && line[end - 1] == 10 {
        end = end - 1;
    }
    if end > 0 && line[end - 1] == 13 {
        end = end - 1;
    }
    let s = &line[0..end];
    proof {
        let a = if line@.len() > 0 && line@.last() == 10 {
            line@.drop_last()
        } else {
            line@
        };
        assert(a =~= line@.subrange(0, a.len() as int));
        if a.len() > 0 && a.last() == 13 {
            assert(a.drop_last() =~= line@.subrange(0, a.len() - 1));
        }
    }
    s
}

} // verus!
