//! Whole ASC logs read back: each written line is one UTF-8 line, and a
//! log of written lines reads back as the events they were written from.
use vstd::prelude::*;
use vstd::utf8::{encode_utf8, encode_utf8_valid_utf8, valid_utf8};

use crate::asc::laws::{
    asc_representable, bit_text, can_kind, can_tail, canfd_rest, canfd_word, cat_sp, checksum_word,
    graphic, lemma_asc_line_reads_back, lemma_bit_text, lemma_can_shape, lemma_canfd_shape,
    lemma_dec_digits_value, lemma_direction, lemma_hex2, lemma_hex_digits_value, lemma_id_text,
    asc_time_ok, lemma_lin_shape, lemma_number_channel, lemma_timestamp_text, lin_rest,
};
use crate::asc::reader::{line_end, spec_collect};
use crate::asc::syntax::{ws_len, AscFault};
use crate::asc::writer::{asc_line, channel_text, direction_text, id_text, timestamp_text, AscWriter};
use crate::event::{models, ChannelModel, Direction, EventModel, LogEvent};
use crate::text::{dec_digits, hex2, hex_digits, hex_join, is_ascii_bytes, lemma_ascii_utf8};

verus! {

/// No line break in the bytes.
pub open spec fn no_nl(s: Seq<u8>) -> bool {
    forall|k: int| 0 <= k < s.len() ==> s[k] != 10
}

/// A piece of a line: UTF-8 without a line break.
pub open spec fn piece(s: Seq<u8>) -> bool {
    valid_utf8(s) && no_nl(s)
}

/// One whole line: a piece and its line break.
pub open spec fn one_line(s: Seq<u8>) -> bool {
    s.len() > 0 && s.last() == 10 && piece(s.drop_last())
}

proof fn lemma_space_piece()
    ensures
        piece(seq![32u8]),
        piece(seq![10u8].drop_last()),
        valid_utf8(seq![10u8]),
{
    lemma_ascii_utf8(seq![32u8]);
    lemma_ascii_utf8(seq![10u8]);
    lemma_ascii_utf8(Seq::<u8>::empty());
    assert(seq![10u8].drop_last() =~= Seq::<u8>::empty());
}

proof fn lemma_piece_cat(x: Seq<u8>, y: Seq<u8>)
    requires
        piece(x),
        piece(y),
    ensures
        piece(cat_sp(x, y)),
{
    lemma_space_piece();
    vstd::utf8::valid_utf8_concat(x, seq![32u8]);
    vstd::utf8::valid_utf8_concat(x + seq![32u8], y);
    let b = cat_sp(x, y);
    assert forall|k: int| 0 <= k < b.len() implies b[k] != 10 by {
        if k < x.len() {
            assert(b[k] == x[k]);
        } else if k > x.len() {
            assert(b[k] == y[k - x.len() - 1]);
        }
    }
}

proof fn lemma_line_cat(x: Seq<u8>, y: Seq<u8>)
    requires
        piece(x),
        one_line(y),
    ensures
        one_line(cat_sp(x, y)),
{
    assert(cat_sp(x, y).drop_last() =~= cat_sp(x, y.drop_last()));
    lemma_piece_cat(x, y.drop_last());
}

proof fn lemma_piece_nl(x: Seq<u8>)
    requires
        piece(x),
    ensures
        one_line(x + seq![10u8]),
{
    assert((x + seq![10u8]).drop_last() =~= x);
}

proof fn lemma_graphic_piece(t: Seq<u8>)
    requires
        graphic(t),
    ensures
        piece(t),
{
    assert(is_ascii_bytes(t)) by {
        assert forall|i: int| 0 <= i < t.len() implies #[trigger] t[i] < 128 by {
            assert(33 <= t[i] <= 126);
        }
    }
    lemma_ascii_utf8(t);
    assert forall|k: int| 0 <= k < t.len() implies t[k] != 10 by {
        assert(33 <= t[k] <= 126);
    }
}

proof fn lemma_hex_join_piece(s: Seq<u8>)
    ensures
        piece(hex_join(s, true)),
    decreases s.len(),
{
    if s.len() == 0 {
        lemma_ascii_utf8(Seq::<u8>::empty());
        assert(hex_join(s, true) =~= Seq::<u8>::empty());
    } else if s.len() == 1 {
        lemma_hex2(s[0]);
        lemma_graphic_piece(hex2(s[0], true));
    } else {
        lemma_hex_join_piece(s.drop_last());
        lemma_hex2(s.last());
        lemma_graphic_piece(hex2(s.last(), true));
        lemma_piece_cat(hex_join(s.drop_last(), true), hex2(s.last(), true));
    }
}

proof fn lemma_head_pieces(ts: i64, c: ChannelModel, id: u32, ext: bool, d: Direction)
    requires
        asc_time_ok(ts),
        piece(channel_text(c)),
    ensures
        piece(timestamp_text(ts)),
        piece(id_text(id, ext)),
        piece(direction_text(d)),
{
    lemma_timestamp_text(ts);
    lemma_id_text(id, ext);
    lemma_direction(d);
    lemma_graphic_piece(timestamp_text(ts));
    lemma_graphic_piece(id_text(id, ext));
    lemma_graphic_piece(direction_text(d));
}

proof fn lemma_chain5_line(a: Seq<u8>, b: Seq<u8>, c: Seq<u8>, d: Seq<u8>, e: Seq<u8>, rest: Seq<u8>)
    requires
        piece(a),
        piece(b),
        piece(c),
        piece(d),
        piece(e),
        one_line(rest),
    ensures
        one_line(cat_sp(a, cat_sp(b, cat_sp(c, cat_sp(d, cat_sp(e, rest)))))),
{
    lemma_line_cat(e, rest);
    lemma_line_cat(d, cat_sp(e, rest));
    lemma_line_cat(c, cat_sp(d, cat_sp(e, rest)));
    lemma_line_cat(b, cat_sp(c, cat_sp(d, cat_sp(e, rest))));
    lemma_line_cat(a, cat_sp(b, cat_sp(c, cat_sp(d, cat_sp(e, rest)))));
}

/// The written line of an event that can be represented is one UTF-8 line.
proof fn lemma_asc_line_one_line(e: LogEvent)
    requires
        asc_representable(e),
    ensures
        one_line(asc_line(e)),
{
    match e {
        LogEvent::Can(f) => {
            lemma_number_channel(f.channel@, f.channel@->Number_0);
            lemma_graphic_piece(channel_text(f.channel@));
            lemma_head_pieces(f.timestamp_ns, f.channel@, f.arbitration_id, f.extended_id, f.direction);
            let kind = can_kind(f.remote_frame);
            assert forall|k: int| 0 <= k < kind.len() implies 33 <= #[trigger] kind[k] <= 126 by {}
            lemma_graphic_piece(kind);
            let h = hex_digits(f.data@.len(), true);
            lemma_hex_digits_value(f.data@.len());
            lemma_graphic_piece(h);
            if f.remote_frame {
                lemma_piece_nl(h);
            } else {
                lemma_hex_join_piece(f.data@);
                lemma_piece_nl(hex_join(f.data@, true));
                lemma_line_cat(h, hex_join(f.data@, true) + seq![10u8]);
            }
            lemma_can_shape(f);
            lemma_chain5_line(
                timestamp_text(f.timestamp_ns),
                channel_text(f.channel@),
                id_text(f.arbitration_id, f.extended_id),
                direction_text(f.direction),
                kind,
                can_tail(f),
            );
        },
        LogEvent::CanFd(f) => {
            lemma_number_channel(f.channel@, f.channel@->Number_0);
            lemma_graphic_piece(channel_text(f.channel@));
            lemma_head_pieces(f.timestamp_ns, f.channel@, f.arbitration_id, f.extended_id, f.direction);
            let w = canfd_word();
            assert forall|k: int| 0 <= k < w.len() implies 33 <= #[trigger] w[k] <= 126 by {}
            lemma_graphic_piece(w);
            lemma_bit_text(f.bitrate_switch);
            lemma_bit_text(f.error_state_indicator);
            lemma_graphic_piece(bit_text(f.bitrate_switch));
            lemma_graphic_piece(bit_text(f.error_state_indicator));
            let dk: Seq<u8> = seq![100u8];
            assert forall|k: int| 0 <= k < dk.len() implies 33 <= #[trigger] dk[k] <= 126 by {}
            lemma_graphic_piece(dk);
            lemma_dec_digits_value(f.dlc_code as nat);
            lemma_graphic_piece(dec_digits(f.dlc_code as nat));
            lemma_dec_digits_value(f.data@.len());
            lemma_graphic_piece(dec_digits(f.data@.len()));
            lemma_hex_join_piece(f.data@);
            lemma_piece_nl(hex_join(f.data@, true));
            lemma_chain5_line(
                bit_text(f.bitrate_switch),
                bit_text(f.error_state_indicator),
                dk,
                dec_digits(f.dlc_code as nat),
                dec_digits(f.data@.len()),
                hex_join(f.data@, true) + seq![10u8],
            );
            lemma_canfd_shape(f);
            lemma_chain5_line(
                timestamp_text(f.timestamp_ns),
                w,
                channel_text(f.channel@),
                id_text(f.arbitration_id, f.extended_id),
                direction_text(f.direction),
                canfd_rest(f),
            );
        },
        LogEvent::Lin(f) => {
            let name = f.channel@->Named_0;
            encode_utf8_valid_utf8(name);
            assert(no_nl(encode_utf8(name))) by {
                let b = encode_utf8(name);
                assert forall|k: int| 0 <= k < b.len() implies b[k] != 10 by {
                    assert(ws_len(b, k) == 0);
                }
            }
            lemma_head_pieces(f.timestamp_ns, f.channel@, 0, false, f.direction);
            let fid = hex_digits(f.frame_id as nat, true);
            lemma_hex_digits_value(f.frame_id as nat);
            lemma_graphic_piece(fid);
            lemma_dec_digits_value(f.data@.len());
            lemma_graphic_piece(dec_digits(f.data@.len()));
            let j = hex_join(f.data@, true);
            lemma_hex_join_piece(f.data@);
            match f.checksum {
                Some(v) => {
                    let ck = checksum_word();
                    let eq: Seq<u8> = seq![61u8];
                    assert forall|k: int| 0 <= k < ck.len() implies 33 <= #[trigger] ck[k] <= 126 by {}
                    assert forall|k: int| 0 <= k < eq.len() implies 33 <= #[trigger] eq[k] <= 126 by {}
                    lemma_graphic_piece(ck);
                    lemma_graphic_piece(eq);
                    lemma_hex2(v);
                    lemma_graphic_piece(hex2(v, true));
                    lemma_piece_nl(hex2(v, true));
                    lemma_line_cat(eq, hex2(v, true) + seq![10u8]);
                    lemma_line_cat(ck, cat_sp(eq, hex2(v, true) + seq![10u8]));
                    lemma_line_cat(j, cat_sp(ck, cat_sp(eq, hex2(v, true) + seq![10u8])));
                    assert(lin_rest(f) =~= cat_sp(j, cat_sp(ck, cat_sp(eq, hex2(v, true) + seq![10u8]))));
                },
                None => {
                    lemma_piece_nl(j);
                    assert(lin_rest(f) =~= j + seq![10u8]);
                },
            }
            lemma_lin_shape(f);
            lemma_chain5_line(
                timestamp_text(f.timestamp_ns),
                channel_text(f.channel@),
                fid,
                direction_text(f.direction),
                dec_digits(f.data@.len()),
                lin_rest(f),
            );
        },
        _ => {},
    }
}

/// The lines of events, in order.
pub open spec fn lines_text(events: Seq<LogEvent>) -> Seq<u8>
    decreases events.len(),
{
    if events.len() == 0 {
        Seq::empty()
    } else {
        asc_line(events[0]) + lines_text(events.drop_first())
    }
}

/// Writing one more event adds its line at the end.
pub proof fn lemma_lines_text_push(events: Seq<LogEvent>, e: LogEvent)
    ensures
        lines_text(events.push(e)) == lines_text(events) + asc_line(e),
    decreases events.len(),
{
    if events.len() == 0 {
        assert(events.push(e).drop_first() =~= Seq::<LogEvent>::empty());
        assert(lines_text(Seq::<LogEvent>::empty()) == Seq::<u8>::empty());
        assert(events.push(e)[0] == e);
        assert(lines_text(events.push(e)) =~= asc_line(e));
        assert(lines_text(events) + asc_line(e) =~= asc_line(e));
    } else {
        assert(events.push(e).drop_first() =~= events.drop_first().push(e));
        lemma_lines_text_push(events.drop_first(), e);
        assert(lines_text(events.push(e)) =~= lines_text(events) + asc_line(e));
    }
}

proof fn lemma_line_end_at(d: Seq<u8>, p: int, l: Seq<u8>, k: int)
    requires
        one_line(l),
        0 <= p,
        p + l.len() <= d.len(),
        d.subrange(p, p + l.len()) == l,
        0 <= k < l.len(),
    ensures
        line_end(d, p + k) == p + l.len(),
    decreases l.len() - k,
{
    assert(d[p + k] == l[k]);
    if k + 1 < l.len() {
        assert(l.drop_last()[k] == l[k]);
        lemma_line_end_at(d, p, l, k + 1);
    }
}

proof fn lemma_first_line(d: Seq<u8>, p: int, l: Seq<u8>, rest: Seq<u8>)
    requires
        one_line(l),
        0 <= p <= d.len(),
        d.subrange(p, d.len() as int) == l + rest,
    ensures
        line_end(d, p) == p + l.len(),
        d.subrange(p, line_end(d, p)) == l,
        valid_utf8(l),
        d.subrange(p + l.len(), d.len() as int) == rest,
        p + l.len() <= d.len(),
{
    let t = d.subrange(p, d.len() as int);
    assert(t.len() == l.len() + rest.len());
    assert(p + l.len() <= d.len());
    assert(d.subrange(p, p + l.len()) =~= t.subrange(0, l.len() as int));
    assert(t.subrange(0, l.len() as int) =~= l);
    lemma_line_end_at(d, p, l, 0);
    lemma_space_piece();
    assert(l =~= l.drop_last() + seq![10u8]);
    vstd::utf8::valid_utf8_concat(l.drop_last(), seq![10u8]);
    assert(d.subrange(p + l.len(), d.len() as int) =~= t.subrange(l.len() as int, t.len() as int));
    assert(t.subrange(l.len() as int, t.len() as int) =~= rest);
}

proof fn lemma_collect_lines(d: Seq<u8>, p: int, events: Seq<LogEvent>, count: nat, limit: nat)
    requires
        forall|i: int| 0 <= i < events.len() ==> asc_representable(#[trigger] events[i]),
        0 <= p <= d.len(),
        d.subrange(p, d.len() as int) == lines_text(events),
        count + events.len() <= limit,
    ensures
        spec_collect(d, p, count, limit) == Ok::<Seq<EventModel>, AscFault>(models(events)),
    decreases events.len(),
{
    if events.len() == 0 {
        assert(d.subrange(p, d.len() as int).len() == 0);
        assert(models(events) =~= Seq::<EventModel>::empty());
    } else {
        let e0 = events[0];
        let l = asc_line(e0);
        let rest = events.drop_first();
        lemma_asc_line_one_line(e0);
        lemma_asc_line_reads_back(e0);
        lemma_first_line(d, p, l, lines_text(rest));
        assert forall|i: int| 0 <= i < rest.len() implies asc_representable(#[trigger] rest[i]) by {
            assert(rest[i] == events[i + 1]);
        }
        lemma_collect_lines(d, p + l.len(), rest, count + 1, limit);
        assert(models(events) =~= seq![e0@] + models(rest));
    }
}

/// What reading gives back of what was written: a log made of the lines
/// of CAN, CAN FD and LIN frames that the ASC text can represent (see
/// `asc_representable`) reads back as exactly those frames, in order.
/// (`AscWriter::write_event` appends `asc_line` of each event, and
/// `lemma_lines_text_push` shows that writing the events one after another
/// gives `lines_text`.)
pub proof fn law_asc_lines_read_back(events: Seq<LogEvent>)
    requires
        forall|i: int| 0 <= i < events.len() ==> asc_representable(#[trigger] events[i]),
        events.len() <= usize::MAX,
    ensures
        spec_collect(lines_text(events), 0, 0, usize::MAX as nat) == Ok::<Seq<EventModel>, AscFault>(models(events)),
{
    let d = lines_text(events);
    assert(d.subrange(0, d.len() as int) =~= d);
    lemma_collect_lines(d, 0, events, 0, usize::MAX as nat);
}

/// A writer holding the lines of representable events reads back as those
/// events, in order. A writer comes to hold them by `AscWriter::new`
/// (nothing written, the lines of no event) and one `write_event` per event
/// (which appends its line; see `lemma_lines_text_push`).
pub proof fn law_asc_writer_reads_back(w: AscWriter, events: Seq<LogEvent>)
    requires
        w.written() == lines_text(events),
        forall|i: int| 0 <= i < events.len() ==> asc_representable(#[trigger] events[i]),
        events.len() <= usize::MAX,
    ensures
        spec_collect(w.written(), 0, 0, usize::MAX as nat) == Ok::<Seq<EventModel>, AscFault>(models(events)),
{
    law_asc_lines_read_back(events);
}

} // verus!
