//! What reading gives back of the lines the writer writes: the tokens of a
//! written line, the numbers in them, and whole logs read line by line.
use vstd::prelude::*;

use vstd::utf8::{encode_utf8, encode_utf8_decode_utf8, encode_utf8_valid_utf8};

use crate::asc::parse::{
    asc_channel, find_token, is_metadata_line, is_remote_kind, spec_parse_canfd, spec_parse_classic,
    spec_parse_lin, spec_parse_line, spec_payload, starts_with_text, token_is,
};
use crate::asc::syntax::{
    all_digits, digit_value, digits_value, dot_index, frac_part, int_part,
    lemma_digits_value_zero, lemma_pow10_small, lemma_skip_ws, lemma_token_end, lemma_token_ranges,
    pow10, signed_body, skip_ws, spec_parse_direction, spec_parse_hex_id, spec_parse_unsigned,
    text_of, token_end, token_ranges, tokens, trim_x, trimmed, unsigned_body,
    ws_len,
};
use crate::asc::timestamp::{
    exp_index, exponent_value, infinity_word, inf_word, is_exp_mark, lemma_digits_concat, lemma_exp_index,
    mantissa, nan_word, spec_timestamp_ns, spells,
};
use crate::asc::seconds::{lemma_decimal_exact, lemma_fixed6_exact};
use crate::asc::timestamp::decimal_ns;
use crate::asc::writer::{
    asc_line, can_line, canfd_body, canfd_line, canfd_prefix, channel_text, checksum_text,
    direction_text, id_text, lin_body, lin_line, lin_prefix, timestamp_text,
};
use crate::event::{CanFdLogEvent, CanLogEvent, ChannelModel, Direction, LinLogEvent, LogEvent};
use crate::text::{chars_of, dec_digits, fixed6, hex2, hex_digit, hex_digits, hex_join, pad_left};

verus! {

/// A whitespace character of one byte.
pub open spec fn is_ws_byte(c: u8) -> bool {
    (9 <= c && c <= 13) || c == 32
}

/// A non-empty token with no whitespace in it.
pub open spec fn solid(t: Seq<u8>) -> bool {
    t.len() > 0 && forall|k: int| 0 <= k < t.len() ==> ws_len(t, k) == 0
}

/// Printable ASCII without the space.
pub open spec fn graphic(t: Seq<u8>) -> bool {
    t.len() > 0 && forall|k: int| 0 <= k < t.len() ==> 33 <= #[trigger] t[k] <= 126
}

/// Ranges moved `d` positions on.
pub open spec fn shift_ranges(r: Seq<(int, int)>, d: int) -> Seq<(int, int)> {
    r.map_values(|p: (int, int)| (p.0 + d, p.1 + d))
}

/// Printable ASCII holds no whitespace.
pub proof fn lemma_graphic_solid(t: Seq<u8>)
    requires
        graphic(t),
    ensures
        solid(t),
{
    assert forall|k: int| 0 <= k < t.len() implies ws_len(t, k) == 0 by {
        assert(33 <= t[k] <= 126);
    }
}

proof fn lemma_ws_left(x: Seq<u8>, c: u8, y: Seq<u8>, k: int)
    requires
        is_ws_byte(c),
        0 <= k < x.len(),
    ensures
        ws_len(x + seq![c] + y, k) == ws_len(x, k),
{
    let b = x + seq![c] + y;
    assert(b[k] == x[k]);
    if k + 1 < x.len() {
        assert(b[k + 1] == x[k + 1]);
    } else {
        assert(b[k + 1] == c);
    }
    if k + 2 < x.len() {
        assert(b[k + 2] == x[k + 2]);
    } else if k + 2 == x.len() {
        assert(b[k + 2] == c);
    }
}

proof fn lemma_ws_right(x: Seq<u8>, c: u8, y: Seq<u8>, k: int)
    requires
        0 <= k < y.len(),
    ensures
        ws_len(x + seq![c] + y, x.len() + 1 + k) == ws_len(y, k),
{
    let b = x + seq![c] + y;
    let n = x.len() as int;
    assert(b.len() == n + 1 + y.len());
    assert(b[n + 1 + k] == y[k]);
    if k + 1 < y.len() {
        assert(b[n + 1 + k + 1] == y[k + 1]);
    }
    if k + 2 < y.len() {
        assert(b[n + 1 + k + 2] == y[k + 2]);
    }
}

proof fn lemma_skip_right(x: Seq<u8>, c: u8, y: Seq<u8>, i: int)
    requires
        0 <= i <= y.len(),
    ensures
        skip_ws(x + seq![c] + y, x.len() + 1 + i) == x.len() + 1 + skip_ws(y, i),
    decreases y.len() - i,
{
    if i < y.len() {
        lemma_ws_right(x, c, y, i);
        if ws_len(y, i) != 0 {
            lemma_skip_right(x, c, y, i + ws_len(y, i));
        }
    }
}

proof fn lemma_end_right(x: Seq<u8>, c: u8, y: Seq<u8>, i: int)
    requires
        0 <= i <= y.len(),
    ensures
        token_end(x + seq![c] + y, x.len() + 1 + i) == x.len() + 1 + token_end(y, i),
    decreases y.len() - i,
{
    if i < y.len() {
        lemma_ws_right(x, c, y, i);
        if ws_len(y, i) == 0 {
            lemma_end_right(x, c, y, i + 1);
        }
    }
}

proof fn lemma_ranges_right(x: Seq<u8>, c: u8, y: Seq<u8>, i: int)
    requires
        0 <= i <= y.len(),
    ensures
        token_ranges(x + seq![c] + y, x.len() + 1 + i) == shift_ranges(token_ranges(y, i), x.len() + 1int),
    decreases y.len() - i,
{
    let b = x + seq![c] + y;
    let d = x.len() + 1int;
    lemma_skip_right(x, c, y, i);
    lemma_skip_ws(y, i);
    let s = skip_ws(y, i);
    if s < y.len() {
        lemma_end_right(x, c, y, s);
        lemma_token_end(y, s);
        let e = token_end(y, s);
        lemma_ranges_right(x, c, y, e);
        assert(token_ranges(b, d + i) == seq![(d + s, d + e)] + token_ranges(b, d + e));
        assert(token_ranges(y, i) == seq![(s, e)] + token_ranges(y, e));
        assert(token_ranges(b, d + i) =~= shift_ranges(token_ranges(y, i), d));
    } else {
        assert(token_ranges(y, i) =~= Seq::<(int, int)>::empty());
        assert(token_ranges(b, d + i) =~= Seq::<(int, int)>::empty());
    }
}

proof fn lemma_skip_left(x: Seq<u8>, c: u8, y: Seq<u8>, i: int)
    requires
        is_ws_byte(c),
        0 <= i <= x.len(),
    ensures
        skip_ws(x, i) < x.len() ==> skip_ws(x + seq![c] + y, i) == skip_ws(x, i),
        skip_ws(x, i) >= x.len() ==> skip_ws(x + seq![c] + y, i) == skip_ws(
            x + seq![c] + y,
            x.len() + 1int,
        ),
    decreases x.len() - i,
{
    let b = x + seq![c] + y;
    if i < x.len() {
        lemma_ws_left(x, c, y, i);
        if ws_len(x, i) != 0 {
            lemma_skip_left(x, c, y, i + ws_len(x, i));
        }
    } else {
        assert(b[x.len() as int] == c);
        assert(ws_len(b, x.len() as int) == 1);
    }
}

proof fn lemma_end_left(x: Seq<u8>, c: u8, y: Seq<u8>, i: int)
    requires
        is_ws_byte(c),
        0 <= i <= x.len(),
    ensures
        token_end(x + seq![c] + y, i) == token_end(x, i),
    decreases x.len() - i,
{
    let b = x + seq![c] + y;
    if i < x.len() {
        lemma_ws_left(x, c, y, i);
        if ws_len(x, i) == 0 {
            lemma_end_left(x, c, y, i + 1);
        }
    } else {
        assert(b[x.len() as int] == c);
        assert(ws_len(b, x.len() as int) == 1);
    }
}

proof fn lemma_ranges_left(x: Seq<u8>, c: u8, y: Seq<u8>, i: int)
    requires
        is_ws_byte(c),
        0 <= i <= x.len(),
    ensures
        token_ranges(x + seq![c] + y, i) == token_ranges(x, i) + token_ranges(
            x + seq![c] + y,
            x.len() + 1int,
        ),
    decreases x.len() - i,
{
    let b = x + seq![c] + y;
    let n = x.len() as int;
    lemma_skip_left(x, c, y, i);
    lemma_skip_ws(x, i);
    let s = skip_ws(x, i);
    if s < n {
        lemma_end_left(x, c, y, s);
        lemma_token_end(x, s);
        let e = token_end(x, s);
        lemma_ranges_left(x, c, y, e);
        assert(token_ranges(b, i) == seq![(s, e)] + token_ranges(b, e));
        assert(token_ranges(x, i) == seq![(s, e)] + token_ranges(x, e));
        assert(token_ranges(b, i) =~= token_ranges(x, i) + token_ranges(b, n + 1));
    } else {
        assert(token_ranges(x, i) =~= Seq::<(int, int)>::empty());
        assert(token_ranges(b, i) == token_ranges(b, n + 1));
        assert(token_ranges(b, i) =~= token_ranges(x, i) + token_ranges(b, n + 1));
    }
}

/// The tokens on both sides of a one-byte whitespace character are the
/// tokens of each side.
pub proof fn lemma_tokens_split(x: Seq<u8>, c: u8, y: Seq<u8>)
    requires
        is_ws_byte(c),
    ensures
        tokens(x + seq![c] + y) == tokens(x) + tokens(y),
{
    let b = x + seq![c] + y;
    let n = x.len() as int;
    lemma_ranges_left(x, c, y, 0);
    lemma_ranges_right(x, c, y, 0);
    lemma_token_ranges(x, 0);
    lemma_token_ranges(y, 0);
    let rx = token_ranges(x, 0);
    let ry = token_ranges(y, 0);
    let rb = token_ranges(b, 0);
    assert(rb == rx + shift_ranges(ry, n + 1));
    let tb = tokens(b);
    let tx = tokens(x);
    let ty = tokens(y);
    assert(tb.len() == tx.len() + ty.len());
    assert forall|k: int| 0 <= k < tb.len() implies tb[k] == (tx + ty)[k] by {
        if k < rx.len() {
            let r = rx[k];
            assert(rb[k] == r);
            assert(b.subrange(r.0, r.1) =~= x.subrange(r.0, r.1));
        } else {
            let r = ry[k - rx.len()];
            assert(rb[k] == (r.0 + n + 1, r.1 + n + 1));
            assert(b.subrange(r.0 + n + 1, r.1 + n + 1) =~= y.subrange(r.0, r.1));
        }
    }
    assert(tb =~= tx + ty);
}

/// A whitespace character at the end changes neither the tokens nor the
/// trimmed line.
pub proof fn lemma_trailing_ws(x: Seq<u8>, c: u8)
    requires
        is_ws_byte(c),
    ensures
        tokens(x + seq![c]) == tokens(x),
        trimmed(x + seq![c]) == trimmed(x),
{
    let b = x + seq![c] + Seq::<u8>::empty();
    assert(b =~= x + seq![c]);
    let n = x.len() as int;
    lemma_ranges_left(x, c, Seq::empty(), 0);
    assert(skip_ws(b, n + 1) == n + 1);
    assert(token_ranges(b, n + 1) =~= Seq::<(int, int)>::empty());
    assert(token_ranges(b, 0) =~= token_ranges(x, 0));
    lemma_tokens_split(x, c, Seq::empty());
    lemma_tokens_empty();
    assert(tokens(x) + Seq::<Seq<u8>>::empty() =~= tokens(x));
    let r = token_ranges(x, 0);
    lemma_token_ranges(x, 0);
    if r.len() > 0 {
        assert(0 <= r[0].0 && r.last().1 <= n);
        assert(r[0].0 <= r.last().0) by {
            if r.len() > 1 {
                assert(r[0].1 <= r[r.len() - 1].0);
            }
        }
        assert(b.subrange(r[0].0, r.last().1) =~= x.subrange(r[0].0, r.last().1));
    }
}

proof fn lemma_end_solid(t: Seq<u8>, i: int)
    requires
        solid(t),
        0 <= i <= t.len(),
    ensures
        token_end(t, i) == t.len(),
    decreases t.len() - i,
{
    if i < t.len() {
        lemma_end_solid(t, i + 1);
    }
}

/// A token without whitespace is its own only token.
pub proof fn lemma_tokens_solid(t: Seq<u8>)
    requires
        solid(t),
    ensures
        tokens(t) == seq![t],
{
    lemma_end_solid(t, 0);
    assert(skip_ws(t, 0) == 0);
    assert(skip_ws(t, t.len() as int) == t.len());
    assert(token_ranges(t, t.len() as int) =~= Seq::<(int, int)>::empty());
    assert(token_ranges(t, 0) =~= seq![(0int, t.len() as int)]);
    assert(t.subrange(0, t.len() as int) =~= t);
    assert(tokens(t) =~= seq![t]);
}

/// Nothing has no tokens.
pub proof fn lemma_tokens_empty()
    ensures
        tokens(Seq::<u8>::empty()) == Seq::<Seq<u8>>::empty(),
{
    assert(token_ranges(Seq::<u8>::empty(), 0) =~= Seq::<(int, int)>::empty());
    assert(tokens(Seq::<u8>::empty()) =~= Seq::<Seq<u8>>::empty());
}

/// Decimal digits read back as the number they were written from.
pub proof fn lemma_dec_digits_value(n: nat)
    ensures
        all_digits(dec_digits(n), 10),
        digits_value(dec_digits(n), 10) == n,
        graphic(dec_digits(n)),
        dec_digits(n)[0] != 43,
        forall|k: int| 0 <= k < dec_digits(n).len() ==> 48 <= #[trigger] dec_digits(n)[k] <= 57,
    decreases n,
{
    let s = dec_digits(n);
    if n < 10 {
        assert(s.drop_last() =~= Seq::<u8>::empty());
        assert(digits_value(s.drop_last(), 10) == 0);
        assert(digit_value(s.last(), 10) == n);
    } else {
        lemma_dec_digits_value(n / 10);
        let p = dec_digits(n / 10);
        assert(s.drop_last() =~= p);
        assert(digit_value(s.last(), 10) == n % 10);
        assert(digits_value(s, 10) == digits_value(p, 10) * 10 + n % 10);
        assert forall|k: int| 0 <= k < s.len() implies 48 <= #[trigger] s[k] <= 57 by {
            if k < p.len() {
                assert(s[k] == p[k]);
            }
        }
    }
    assert forall|k: int| 0 <= k < s.len() implies digit_value(#[trigger] s[k], 10) >= 0 by {
        assert(48 <= s[k] <= 57);
    }
    assert forall|k: int| 0 <= k < s.len() implies 33 <= #[trigger] s[k] <= 126 by {
        assert(48 <= s[k] <= 57);
    }
}

/// Decimal digits of a number no larger than `max` read back as it.
pub proof fn lemma_dec_parse(n: nat, max: int)
    requires
        n <= max,
    ensures
        spec_parse_unsigned(dec_digits(n), 10, max) == Some(n as int),
{
    lemma_dec_digits_value(n);
    assert(unsigned_body(dec_digits(n)) == dec_digits(n));
}

proof fn lemma_hex_digit(d: nat)
    requires
        d < 16,
    ensures
        digit_value(hex_digit(d, true), 16) == d,
        48 <= hex_digit(d, true) <= 57 || 65 <= hex_digit(d, true) <= 70,
{
}

/// Upper-case hexadecimal digits read back as the number they were
/// written from; they hold no `x` or `X`.
pub proof fn lemma_hex_digits_value(n: nat)
    ensures
        all_digits(hex_digits(n, true), 16),
        digits_value(hex_digits(n, true), 16) == n,
        graphic(hex_digits(n, true)),
        forall|k: int|
            0 <= k < hex_digits(n, true).len() ==> (48 <= #[trigger] hex_digits(n, true)[k] <= 57 || 65
                <= hex_digits(n, true)[k] <= 70),
    decreases n,
{
    let s = hex_digits(n, true);
    if n < 16 {
        lemma_hex_digit(n);
        assert(s.drop_last() =~= Seq::<u8>::empty());
        assert(digits_value(s.drop_last(), 16) == 0);
        assert(digit_value(s.last(), 16) == n);
    } else {
        lemma_hex_digits_value(n / 16);
        lemma_hex_digit(n % 16);
        let p = hex_digits(n / 16, true);
        assert(s.drop_last() =~= p);
        assert(digit_value(s.last(), 16) == n % 16);
        assert(digits_value(s, 16) == digits_value(p, 16) * 16 + n % 16);
        assert forall|k: int| 0 <= k < s.len() implies (48 <= #[trigger] s[k] <= 57 || 65 <= s[k]
            <= 70) by {
            if k < p.len() {
                assert(s[k] == p[k]);
            }
        }
    }
    assert forall|k: int| 0 <= k < s.len() implies digit_value(#[trigger] s[k], 16) >= 0 by {
        assert(48 <= s[k] <= 57 || 65 <= s[k] <= 70);
    }
    assert forall|k: int| 0 <= k < s.len() implies 33 <= #[trigger] s[k] <= 126 by {
        assert(48 <= s[k] <= 57 || 65 <= s[k] <= 70);
    }
}

/// Hexadecimal digits of a number no larger than `max` read back as it.
pub proof fn lemma_hex_parse(n: nat, max: int)
    requires
        n <= max,
    ensures
        spec_parse_unsigned(hex_digits(n, true), 16, max) == Some(n as int),
{
    lemma_hex_digits_value(n);
    let s = hex_digits(n, true);
    assert(48 <= s[0] <= 57 || 65 <= s[0] <= 70);
    assert(unsigned_body(s) == s);
}

/// A byte's two hexadecimal digits read back as the byte.
pub proof fn lemma_hex2(b: u8)
    ensures
        graphic(hex2(b, true)),
        hex2(b, true).len() == 2,
        spec_parse_unsigned(hex2(b, true), 16, 255) == Some(b as int),
{
    let s = hex2(b, true);
    lemma_hex_digit((b / 16) as nat);
    lemma_hex_digit((b % 16) as nat);
    assert(s.drop_last() =~= seq![s[0]]);
    assert(s.drop_last().drop_last() =~= Seq::<u8>::empty());
    assert(digits_value(s.drop_last().drop_last(), 16) == 0);
    assert(digits_value(s.drop_last(), 16) == b / 16);
    assert(digits_value(s, 16) == (b / 16) * 16 + b % 16);
    assert(digits_value(s, 16) == b);
    assert forall|k: int| 0 <= k < s.len() implies 33 <= #[trigger] s[k] <= 126 by {}
    assert forall|k: int| 0 <= k < s.len() implies digit_value(#[trigger] s[k], 16) >= 0 by {}
    assert(unsigned_body(s) == s);
}

/// An identifier as written reads back with its extended marker.
pub proof fn lemma_id_text(id: u32, ext: bool)
    ensures
        graphic(id_text(id, ext)),
        spec_parse_hex_id(id_text(id, ext)) == Some((id, ext)),
{
    let h = hex_digits(id as nat, true);
    let t = id_text(id, ext);
    lemma_hex_digits_value(id as nat);
    lemma_hex_parse(id as nat, u32::MAX as int);
    let last = h[h.len() - 1];
    assert(48 <= last <= 57 || 65 <= last <= 70);
    assert(trim_x(h) == h);
    if ext {
        assert(t == h.push(120u8));
        assert(t.drop_last() =~= h);
        assert(trim_x(t) == trim_x(h));
        assert forall|k: int| 0 <= k < t.len() implies 33 <= #[trigger] t[k] <= 126 by {
            if k < h.len() {
                assert(t[k] == h[k]);
            }
        }
    } else {
        assert(t =~= h);
    }
}

/// The value of digits does not change with zeros put before them.
proof fn lemma_leading_zeros(z: nat, s: Seq<u8>)
    ensures
        digits_value(Seq::new(z, |i: int| 48u8) + s, 10) == digits_value(s, 10),
    decreases s.len(), z,
{
    let zs = Seq::new(z, |i: int| 48u8);
    if s.len() == 0 {
        assert(zs + s =~= zs);
        if z > 0 {
            assert(zs.drop_last() =~= Seq::new((z - 1) as nat, |i: int| 48u8));
            lemma_leading_zeros((z - 1) as nat, s);
            assert(Seq::new((z - 1) as nat, |i: int| 48u8) + s =~= Seq::new((z - 1) as nat, |i: int| 48u8));
        }
    } else {
        lemma_leading_zeros(z, s.drop_last());
        assert((zs + s).drop_last() =~= zs + s.drop_last());
        assert((zs + s).last() == s.last());
    }
}

/// A digit string is no longer than its bound's power of ten needs.
proof fn lemma_dec_len(n: nat, k: nat)
    requires
        1 <= k <= 9,
        n < pow10(k),
    ensures
        dec_digits(n).len() <= k,
    decreases n,
{
    lemma_pow10_small((k - 1) as nat);
    if n >= 10 {
        assert(k >= 2) by {
            if k == 1 {
                reveal_with_fuel(pow10, 2);
            }
        }
        lemma_pow10_small((k - 1) as nat);
        lemma_dec_len(n / 10, (k - 1) as nat);
    }
}

/// Six fraction digits, zero-padded, read back as the number below a
/// million they were written from.
proof fn lemma_six_digits(m: nat)
    requires
        m < 1_000_000,
    ensures
        pad_left(dec_digits(m), 6, 48).len() == 6,
        all_digits(pad_left(dec_digits(m), 6, 48), 10),
        digits_value(pad_left(dec_digits(m), 6, 48), 10) == m,
        forall|k: int|
            0 <= k < 6 ==> 48 <= #[trigger] pad_left(dec_digits(m), 6, 48)[k] <= 57,
{
    let d = dec_digits(m);
    lemma_dec_digits_value(m);
    reveal_with_fuel(pow10, 7);
    lemma_dec_len(m, 6);
    let p = pad_left(d, 6, 48);
    if d.len() < 6 {
        let z = (6 - d.len()) as nat;
        assert(p == Seq::new(z, |i: int| 48u8) + d);
        lemma_leading_zeros(z, d);
        assert forall|k: int| 0 <= k < 6 implies 48 <= #[trigger] p[k] <= 57 by {
            if k >= z {
                assert(p[k] == d[k - z]);
            }
        }
    } else {
        assert(p == d);
    }
    assert forall|k: int| 0 <= k < p.len() implies digit_value(#[trigger] p[k], 10) >= 0 by {
        assert(48 <= p[k] <= 57);
    }
}

/// The first `.` comes after the digits before it.
proof fn lemma_dot_after_digits(a: Seq<u8>, b: Seq<u8>)
    requires
        forall|k: int| 0 <= k < a.len() ==> #[trigger] a[k] != 46,
    ensures
        dot_index(a + seq![46u8] + b) == a.len(),
    decreases a.len(),
{
    let s = a + seq![46u8] + b;
    if a.len() > 0 {
        assert(s[0] == a[0]);
        assert(s.drop_first() =~= a.drop_first() + seq![46u8] + b);
        assert forall|k: int| 0 <= k < a.drop_first().len() implies #[trigger] a.drop_first()[k] != 46 by {
            assert(a.drop_first()[k] == a[k + 1]);
        }
        lemma_dot_after_digits(a.drop_first(), b);
    } else {
        assert(s[0] == 46);
    }
}

/// A whole number of microseconds as written reads back as the nanoseconds.
proof fn lemma_fixed6_value(ns: nat)
    requires
        ns % 1000 == 0,
        ns < 1_000_000_000_000_000,
    ensures
        graphic(fixed6(ns)),
        fixed6(ns)[0] != 43 && fixed6(ns)[0] != 45,
        48 <= fixed6(ns)[0] <= 57,
        exp_index(fixed6(ns)) == fixed6(ns).len(),
        ({
            let body = fixed6(ns);
            let ip = int_part(body);
            let fp = frac_part(body);
            &&& fp.len() == 6
            &&& all_digits(ip, 10)
            &&& all_digits(fp, 10)
            &&& digits_value(ip + fp, 10) * 1000 == ns
        }),
{
    let us = ns / 1000;
    let q = us / 1_000_000;
    let r = us % 1_000_000;
    let a = dec_digits(q);
    let p = pad_left(dec_digits(r), 6, 48);
    let body = fixed6(ns);
    lemma_fixed6_exact(ns);
    assert(body == a + seq![46u8] + p);
    lemma_dec_digits_value(q);
    lemma_six_digits(r);
    assert forall|k: int| 0 <= k < a.len() implies #[trigger] a[k] != 46 by {
        assert(48 <= a[k] <= 57);
    }
    lemma_dot_after_digits(a, p);
    assert(int_part(body) =~= a);
    assert(frac_part(body) =~= p);
    lemma_digits_concat(a, p);
    lemma_pow10_small(6);
    reveal_with_fuel(pow10, 7);
    assert(q * 1_000_000 + r == us);
    assert(us * 1000 == ns);
    assert((q * 1_000_000 + r) * 1000 == ns) by (nonlinear_arith)
        requires
            q * 1_000_000 + r == us,
            us * 1000 == ns,
    ;
    assert(body[0] == a[0]);
    assert forall|k: int| 0 <= k < body.len() implies 33 <= #[trigger] body[k] <= 126 && !is_exp_mark(
        body[k],
    ) by {
        if k < a.len() {
            assert(body[k] == a[k]);
        } else if k > a.len() {
            assert(body[k] == p[k - a.len() - 1]);
        }
    }
    lemma_exp_index(body);
}

/// A timestamp that the text holds exactly: a whole number of
/// microseconds, less than `10^15` nanoseconds either side of zero.
pub open spec fn asc_time_ok(ns: i64) -> bool {
    ns % 1000 == 0 && -1_000_000_000_000_000 < ns < 1_000_000_000_000_000
}

/// A timestamp written as a whole number of microseconds below `10^15`
/// nanoseconds reads back as it.
pub proof fn lemma_timestamp_text(ns: i64)
    requires
        asc_time_ok(ns),
    ensures
        graphic(timestamp_text(ns)),
        48 <= timestamp_text(ns)[0] <= 57 || timestamp_text(ns)[0] == 45,
        spec_timestamp_ns(timestamp_text(ns)) == Some(ns),
{
    let t = timestamp_text(ns);
    let m: nat = if ns < 0 {
        (-(ns as int)) as nat
    } else {
        ns as nat
    };
    assert(m % 1000 == 0);
    lemma_fixed6_value(m);
    let f = fixed6(m);
    if ns < 0 {
        assert(t == seq![45u8] + f);
        assert(signed_body(t) =~= f);
        assert forall|k: int| 0 <= k < t.len() implies 33 <= #[trigger] t[k] <= 126 by {
            if k > 0 {
                assert(t[k] == f[k - 1]);
            }
        }
    } else {
        assert(signed_body(t) == t);
    }
    let body = signed_body(t);
    assert(body == f);
    assert(!spells(body, inf_word()) && !spells(body, infinity_word()) && !spells(body, nan_word()))
        by {
        assert(48 <= body[0] <= 57);
        assert(inf_word()[0] == 105u8);
        assert(infinity_word()[0] == 105u8);
        assert(nan_word()[0] == 110u8);
    }
    assert(mantissa(body) =~= body);
    assert(exponent_value(body) == Some(0int));
    let ip = int_part(body);
    let fp = frac_part(body);
    let d = digits_value(ip + fp, 10);
    assert(d * 1000 == m);
    if m > 0 {
        lemma_decimal_exact(d as nat);
    } else {
        reveal(decimal_ns);
    }
}

/// `x`, a space, then `y`.
pub open spec fn cat_sp(x: Seq<u8>, y: Seq<u8>) -> Seq<u8> {
    x + seq![32u8] + y
}

proof fn lemma_cat_sp(x: Seq<u8>, y: Seq<u8>)
    ensures
        tokens(cat_sp(x, y)) == tokens(x) + tokens(y),
{
    lemma_tokens_split(x, 32u8, y);
}

proof fn lemma_nl(x: Seq<u8>)
    ensures
        tokens(x + seq![10u8]) == tokens(x),
{
    lemma_tokens_split(x, 10u8, Seq::empty());
    lemma_tokens_empty();
    assert(x + seq![10u8] + Seq::<u8>::empty() =~= x + seq![10u8]);
    assert(tokens(x) + Seq::<Seq<u8>>::empty() =~= tokens(x));
}

proof fn lemma_graphic_token(t: Seq<u8>)
    requires
        graphic(t),
    ensures
        tokens(t) == seq![t],
        solid(t),
{
    lemma_graphic_solid(t);
    lemma_tokens_solid(t);
}

/// The tokens of bytes written as two-digit hexadecimal numbers.
pub open spec fn hex_tokens(s: Seq<u8>) -> Seq<Seq<u8>> {
    s.map_values(|b: u8| hex2(b, true))
}

proof fn lemma_hex_join_tokens(s: Seq<u8>)
    ensures
        tokens(hex_join(s, true)) == hex_tokens(s),
    decreases s.len(),
{
    if s.len() == 0 {
        lemma_tokens_empty();
        assert(hex_join(s, true) =~= Seq::<u8>::empty());
        assert(hex_tokens(s) =~= Seq::<Seq<u8>>::empty());
    } else if s.len() == 1 {
        lemma_hex2(s[0]);
        lemma_graphic_token(hex2(s[0], true));
        assert(hex_tokens(s) =~= seq![hex2(s[0], true)]);
    } else {
        lemma_hex_join_tokens(s.drop_last());
        lemma_hex2(s.last());
        lemma_graphic_token(hex2(s.last(), true));
        lemma_tokens_split(hex_join(s.drop_last(), true), 32u8, hex2(s.last(), true));
        assert(hex_tokens(s) =~= hex_tokens(s.drop_last()) + seq![hex2(s.last(), true)]);
    }
}

proof fn lemma_payload(s: Seq<u8>)
    ensures
        spec_payload(hex_tokens(s), s.len()) == Ok::<Seq<u8>, crate::asc::syntax::AscFault>(s),
    decreases s.len(),
{
    if s.len() > 0 {
        lemma_hex2(s[0]);
        assert(hex_tokens(s)[0] == hex2(s[0], true));
        assert(hex_tokens(s).drop_first() =~= hex_tokens(s.drop_first()));
        lemma_payload(s.drop_first());
        assert(seq![s[0]] + s.drop_first() =~= s);
    } else {
        assert(s =~= Seq::<u8>::empty());
    }
}

/// Hexadecimal data tokens never spell `checksum`.
proof fn lemma_find_after_hex(s: Seq<u8>, tail: Seq<Seq<u8>>)
    ensures
        find_token(hex_tokens(s) + tail, "checksum"@) == match find_token(tail, "checksum"@) {
            Some(k) => Some(k + s.len()),
            None => None,
        },
    decreases s.len(),
{
    reveal_strlit("checksum");
    let ts = hex_tokens(s) + tail;
    if s.len() > 0 {
        lemma_hex2(s[0]);
        assert(ts[0] == hex2(s[0], true));
        assert(chars_of(ts[0]).len() == 2);
        assert(!token_is(ts[0], "checksum"@));
        assert(ts.drop_first() =~= hex_tokens(s.drop_first()) + tail);
        lemma_find_after_hex(s.drop_first(), tail);
    } else {
        assert(ts =~= tail);
    }
}

proof fn lemma_not_token(t: Seq<u8>, text: Seq<char>)
    requires
        t.len() > 0,
        text.len() > 0,
        (t[0] as char) != text[0],
    ensures
        !token_is(t, text),
{
    if token_is(t, text) {
        assert(chars_of(t)[0] == text[0]);
    }
}

/// A line that starts with a digit or `-` and has tokens is not empty once
/// trimmed, and is no header line.
proof fn lemma_line_start(b: Seq<u8>)
    requires
        tokens(b).len() > 0,
        b.len() > 0,
        48 <= b[0] <= 57 || b[0] == 45,
    ensures
        trimmed(b).len() > 0,
        !is_metadata_line(trimmed(b)),
{
    let r = token_ranges(b, 0);
    lemma_token_ranges(b, 0);
    assert(ws_len(b, 0) == 0);
    assert(skip_ws(b, 0) == 0);
    assert(r[0].0 == 0);
    assert(r.len() == tokens(b).len());
    let t = trimmed(b);
    assert(t == b.subrange(0, r.last().1));
    assert(r.last().1 > 0);
    assert(t[0] == b[0]);
    reveal_strlit("date ");
    reveal_strlit("base ");
    reveal_strlit("internal ");
    reveal_strlit("//");
    reveal_strlit("Begin TriggerBlock");
    reveal_strlit("Begin Triggerblock");
    reveal_strlit("End TriggerBlock");
    assert forall|text: Seq<char>|
        text.len() > 0 && (text[0] == 'd' || text[0] == 'b' || text[0] == 'i' || text[0] == '/'
            || text[0] == 'B' || text[0] == 'E') implies !#[trigger] starts_with_text(t, text) by {
        if starts_with_text(t, text) {
            assert(chars_of(t.subrange(0, text.len() as int))[0] == text[0]);
        }
    }
    assert(!starts_with_text(t, "date "@));
    assert(!starts_with_text(t, "base "@));
    assert(!starts_with_text(t, "internal "@));
    assert(!starts_with_text(t, "//"@));
    assert(!starts_with_text(t, "Begin TriggerBlock"@));
    assert(!starts_with_text(t, "Begin Triggerblock"@));
    assert(!starts_with_text(t, "End TriggerBlock"@));
}

/// A LIN channel name that reads back: it starts with `L` and holds no
/// whitespace.
pub open spec fn lin_name_ok(name: Seq<char>) -> bool {
    solid(encode_utf8(name)) && encode_utf8(name)[0] == 76
}

/// An event whose line reads back as the event: a CAN, CAN FD or LIN frame
/// with a whole number of microseconds; CAN and CAN FD on a numbered
/// channel below the last one (the written number saturates); a LIN
/// channel name that starts with `L` and holds no whitespace; at most eight
/// data bytes in a CAN data frame (only eight are read back) and none in a
/// remote frame (its data is not written).
pub open spec fn asc_representable(e: LogEvent) -> bool {
    match e {
        LogEvent::Can(f) => {
            &&& asc_time_ok(f.timestamp_ns)
            &&& f.channel@ matches ChannelModel::Number(n) && n < 65535
            &&& if f.remote_frame {
                f.data@.len() == 0
            } else {
                f.data@.len() <= 8
            }
        },
        LogEvent::CanFd(f) => {
            &&& asc_time_ok(f.timestamp_ns)
            &&& f.channel@ matches ChannelModel::Number(n) && n < 65535
            &&& f.data@.len() <= usize::MAX
        },
        LogEvent::Lin(f) => {
            &&& asc_time_ok(f.timestamp_ns)
            &&& f.channel@ matches ChannelModel::Named(name) && lin_name_ok(name)
            &&& f.data@.len() <= usize::MAX
        },
        _ => false,
    }
}

pub proof fn lemma_number_channel(c: ChannelModel, n: u16)
    requires
        c == ChannelModel::Number(n),
        n < 65535,
    ensures
        channel_text(c) == dec_digits((n + 1) as nat),
        graphic(channel_text(c)),
        all_digits(channel_text(c), 10),
        48 <= channel_text(c)[0] <= 57,
        spec_parse_unsigned(channel_text(c), 10, 65535) == Some((n + 1) as int),
        asc_channel((n + 1) as int) == c,
{
    lemma_dec_digits_value((n + 1) as nat);
    lemma_dec_parse((n + 1) as nat, 65535);
}

pub proof fn lemma_direction(d: Direction)
    ensures
        graphic(direction_text(d)),
        spec_parse_direction(direction_text(d)) == Some(d),
{
    let t = direction_text(d);
    assert forall|k: int| 0 <= k < t.len() implies 33 <= #[trigger] t[k] <= 126 by {}
}

/// The data frame kind `d` or the remote frame kind `r`.
pub open spec fn can_kind(remote: bool) -> Seq<u8> {
    if remote {
        seq![114u8]
    } else {
        seq![100u8]
    }
}

/// The tokens of a CAN line.
pub open spec fn can_tokens(f: CanLogEvent) -> Seq<Seq<u8>> {
    seq![
        timestamp_text(f.timestamp_ns),
        channel_text(f.channel@),
        id_text(f.arbitration_id, f.extended_id),
        direction_text(f.direction),
        can_kind(f.remote_frame),
        hex_digits(f.data@.len(), true),
    ] + if f.remote_frame {
        Seq::empty()
    } else {
        hex_tokens(f.data@)
    }
}

/// The head tokens of a frame line are solid.
proof fn lemma_head_tokens(ts: i64, c: ChannelModel, id: u32, ext: bool, d: Direction)
    requires
        asc_time_ok(ts),
        graphic(channel_text(c)) || solid(channel_text(c)),
    ensures
        tokens(timestamp_text(ts)) == seq![timestamp_text(ts)],
        tokens(channel_text(c)) == seq![channel_text(c)],
        tokens(id_text(id, ext)) == seq![id_text(id, ext)],
        tokens(direction_text(d)) == seq![direction_text(d)],
{
    lemma_timestamp_text(ts);
    lemma_id_text(id, ext);
    lemma_direction(d);
    lemma_graphic_token(timestamp_text(ts));
    if graphic(channel_text(c)) {
        lemma_graphic_token(channel_text(c));
    } else {
        lemma_tokens_solid(channel_text(c));
    }
    lemma_graphic_token(id_text(id, ext));
    lemma_graphic_token(direction_text(d));
}

/// Tokens of five parts and a rest, each after a space.
proof fn lemma_tokens_chain5(a: Seq<u8>, b: Seq<u8>, c: Seq<u8>, d: Seq<u8>, e: Seq<u8>, rest: Seq<u8>)
    ensures
        tokens(cat_sp(a, cat_sp(b, cat_sp(c, cat_sp(d, cat_sp(e, rest)))))) == tokens(a) + tokens(b)
            + tokens(c) + tokens(d) + tokens(e) + tokens(rest),
{
    lemma_cat_sp(e, rest);
    lemma_cat_sp(d, cat_sp(e, rest));
    lemma_cat_sp(c, cat_sp(d, cat_sp(e, rest)));
    lemma_cat_sp(b, cat_sp(c, cat_sp(d, cat_sp(e, rest))));
    lemma_cat_sp(a, cat_sp(b, cat_sp(c, cat_sp(d, cat_sp(e, rest)))));
    assert(tokens(a) + (tokens(b) + (tokens(c) + (tokens(d) + (tokens(e) + tokens(rest))))) =~= tokens(a)
        + tokens(b) + tokens(c) + tokens(d) + tokens(e) + tokens(rest));
}

/// The end of a CAN line after its frame kind.
pub open spec fn can_tail(f: CanLogEvent) -> Seq<u8> {
    if f.remote_frame {
        hex_digits(f.data@.len(), true) + seq![10u8]
    } else {
        cat_sp(hex_digits(f.data@.len(), true), hex_join(f.data@, true) + seq![10u8])
    }
}

/// Four parts each followed by a space, then the rest.
proof fn lemma_head_assoc(t0: Seq<u8>, c: Seq<u8>, id: Seq<u8>, d: Seq<u8>, rest: Seq<u8>)
    ensures
        t0 + seq![32u8] + c + seq![32u8] + id + seq![32u8] + d + seq![32u8] + rest == cat_sp(
            t0,
            cat_sp(c, cat_sp(id, cat_sp(d, rest))),
        ),
{
    assert(t0 + seq![32u8] + c + seq![32u8] + id + seq![32u8] + d + seq![32u8] + rest =~= cat_sp(
        t0,
        cat_sp(c, cat_sp(id, cat_sp(d, rest))),
    ));
}

pub proof fn lemma_can_shape(f: CanLogEvent)
    ensures
        can_line(f) == cat_sp(
            timestamp_text(f.timestamp_ns),
            cat_sp(
                channel_text(f.channel@),
                cat_sp(
                    id_text(f.arbitration_id, f.extended_id),
                    cat_sp(direction_text(f.direction), cat_sp(can_kind(f.remote_frame), can_tail(f))),
                ),
            ),
        ),
{
    let t0 = timestamp_text(f.timestamp_ns);
    let c = channel_text(f.channel@);
    let id = id_text(f.arbitration_id, f.extended_id);
    let d = direction_text(f.direction);
    let h = hex_digits(f.data@.len(), true);
    let j = hex_join(f.data@, true);
    let head = t0 + seq![32u8] + c + seq![32u8] + id + seq![32u8] + d;
    let rest = cat_sp(can_kind(f.remote_frame), can_tail(f));
    if f.remote_frame {
        assert(can_line(f) == head + seq![32u8, 114u8, 32u8] + h + seq![10u8]);
        assert(head + seq![32u8, 114u8, 32u8] + h + seq![10u8] =~= head + seq![32u8] + rest);
    } else {
        assert(can_line(f) == head + seq![32u8, 100u8, 32u8] + h + seq![32u8] + j + seq![10u8]);
        assert(head + seq![32u8, 100u8, 32u8] + h + seq![32u8] + j + seq![10u8] =~= head + seq![32u8]
            + rest);
    }
    lemma_head_assoc(t0, c, id, d, rest);
}

proof fn lemma_can_tail_tokens(f: CanLogEvent)
    ensures
        tokens(can_tail(f)) == seq![hex_digits(f.data@.len(), true)] + if f.remote_frame {
            Seq::empty()
        } else {
            hex_tokens(f.data@)
        },
{
    let h = hex_digits(f.data@.len(), true);
    lemma_hex_digits_value(f.data@.len());
    lemma_graphic_token(h);
    if f.remote_frame {
        lemma_nl(h);
        assert(seq![h] + Seq::<Seq<u8>>::empty() =~= seq![h]);
    } else {
        let j = hex_join(f.data@, true);
        lemma_hex_join_tokens(f.data@);
        lemma_nl(j);
        lemma_cat_sp(h, j + seq![10u8]);
    }
}

proof fn lemma_can_tokens(f: CanLogEvent)
    requires
        asc_representable(LogEvent::Can(f)),
    ensures
        tokens(can_line(f)) == can_tokens(f),
{
    lemma_number_channel(f.channel@, f.channel@->Number_0);
    lemma_head_tokens(f.timestamp_ns, f.channel@, f.arbitration_id, f.extended_id, f.direction);
    lemma_graphic_token(can_kind(f.remote_frame));
    lemma_can_shape(f);
    lemma_can_tail_tokens(f);
    lemma_tokens_chain5(
        timestamp_text(f.timestamp_ns),
        channel_text(f.channel@),
        id_text(f.arbitration_id, f.extended_id),
        direction_text(f.direction),
        can_kind(f.remote_frame),
        can_tail(f),
    );
    assert(tokens(can_line(f)) =~= can_tokens(f));
}

proof fn lemma_can_parse(f: CanLogEvent)
    requires
        asc_representable(LogEvent::Can(f)),
    ensures
        spec_parse_classic(can_tokens(f), f.timestamp_ns) == Ok::<crate::event::EventModel, crate::asc::syntax::AscFault>(LogEvent::Can(f)@),
{
    let toks = can_tokens(f);
    let n = f.channel@->Number_0;
    lemma_number_channel(f.channel@, n);
    lemma_id_text(f.arbitration_id, f.extended_id);
    lemma_direction(f.direction);
    lemma_hex_parse(f.data@.len(), 255);
    assert(toks[1] == channel_text(f.channel@));
    assert(toks[2] == id_text(f.arbitration_id, f.extended_id));
    assert(toks[3] == direction_text(f.direction));
    assert(toks[4] == can_kind(f.remote_frame));
    assert(toks[5] == hex_digits(f.data@.len(), true));
    assert(is_remote_kind(can_kind(f.remote_frame)) == f.remote_frame);
    if f.remote_frame {
        assert(f.data@ =~= Seq::<u8>::empty());
    } else {
        assert(toks.subrange(6, toks.len() as int) =~= hex_tokens(f.data@));
        lemma_payload(f.data@);
    }
}

/// A CAN line reads back as its frame.
proof fn lemma_can_line(f: CanLogEvent)
    requires
        asc_representable(LogEvent::Can(f)),
    ensures
        spec_parse_line(can_line(f)) == Ok::<Option<crate::event::EventModel>, crate::asc::syntax::AscFault>(Some(LogEvent::Can(f)@)),
{
    let line = can_line(f);
    let c = channel_text(f.channel@);
    lemma_can_tokens(f);
    lemma_can_parse(f);
    lemma_timestamp_text(f.timestamp_ns);
    lemma_number_channel(f.channel@, f.channel@->Number_0);
    lemma_direction(f.direction);
    let toks = tokens(line);
    assert(line[0] == timestamp_text(f.timestamp_ns)[0]);
    lemma_line_start(line);
    reveal_strlit("Start");
    reveal_strlit("CANFD");
    lemma_not_token(c, "Start"@);
    lemma_not_token(c, "CANFD"@);
    assert(toks[0] == timestamp_text(f.timestamp_ns));
    assert(toks[1] == c);
    assert(toks[3] == direction_text(f.direction));
}

/// Five parts each followed by a space, then the rest.
proof fn lemma_assoc5(a: Seq<u8>, b: Seq<u8>, c: Seq<u8>, d: Seq<u8>, e: Seq<u8>, rest: Seq<u8>)
    ensures
        a + seq![32u8] + b + seq![32u8] + c + seq![32u8] + d + seq![32u8] + e + seq![32u8] + rest
            == cat_sp(a, cat_sp(b, cat_sp(c, cat_sp(d, cat_sp(e, rest))))),
{
    assert(a + seq![32u8] + b + seq![32u8] + c + seq![32u8] + d + seq![32u8] + e + seq![32u8] + rest
        =~= cat_sp(a, cat_sp(b, cat_sp(c, cat_sp(d, cat_sp(e, rest))))));
}

/// `CANFD`.
pub open spec fn canfd_word() -> Seq<u8> {
    seq![67u8, 65u8, 78u8, 70u8, 68u8]
}

/// `0` or `1`.
pub open spec fn bit_text(b: bool) -> Seq<u8> {
    if b {
        seq![49u8]
    } else {
        seq![48u8]
    }
}

/// The tokens of a CAN FD line.
pub open spec fn canfd_tokens(f: CanFdLogEvent) -> Seq<Seq<u8>> {
    seq![
        timestamp_text(f.timestamp_ns),
        canfd_word(),
        channel_text(f.channel@),
        id_text(f.arbitration_id, f.extended_id),
        direction_text(f.direction),
        bit_text(f.bitrate_switch),
        bit_text(f.error_state_indicator),
        seq![100u8],
        dec_digits(f.dlc_code as nat),
        dec_digits(f.data@.len()),
    ] + hex_tokens(f.data@)
}

/// The part of a CAN FD line after its direction.
pub open spec fn canfd_rest(f: CanFdLogEvent) -> Seq<u8> {
    cat_sp(
        bit_text(f.bitrate_switch),
        cat_sp(
            bit_text(f.error_state_indicator),
            cat_sp(
                seq![100u8],
                cat_sp(
                    dec_digits(f.dlc_code as nat),
                    cat_sp(dec_digits(f.data@.len()), hex_join(f.data@, true) + seq![10u8]),
                ),
            ),
        ),
    )
}

pub proof fn lemma_canfd_shape(f: CanFdLogEvent)
    ensures
        canfd_line(f) == cat_sp(
            timestamp_text(f.timestamp_ns),
            cat_sp(
                canfd_word(),
                cat_sp(
                    channel_text(f.channel@),
                    cat_sp(
                        id_text(f.arbitration_id, f.extended_id),
                        cat_sp(direction_text(f.direction), canfd_rest(f)),
                    ),
                ),
            ),
        ),
{
    let t0 = timestamp_text(f.timestamp_ns);
    let c = channel_text(f.channel@);
    let id = id_text(f.arbitration_id, f.extended_id);
    let d = direction_text(f.direction);
    let bs = bit_text(f.bitrate_switch);
    let es = bit_text(f.error_state_indicator);
    let dl = dec_digits(f.dlc_code as nat);
    let n = dec_digits(f.data@.len());
    let j = hex_join(f.data@, true);
    let prefix = t0 + seq![32u8] + canfd_word() + seq![32u8] + c + seq![32u8] + id + seq![32u8] + d;
    assert(canfd_prefix(f) =~= prefix);
    let tail = j + seq![10u8];
    assert(canfd_body(f) =~= seq![32u8] + (bs + seq![32u8] + es + seq![32u8] + seq![100u8] + seq![32u8]
        + dl + seq![32u8] + n + seq![32u8] + tail));
    lemma_assoc5(bs, es, seq![100u8], dl, n, tail);
    assert(canfd_line(f) =~= prefix + seq![32u8] + canfd_rest(f));
    lemma_assoc5(t0, canfd_word(), c, id, d, canfd_rest(f));
}

pub proof fn lemma_bit_text(b: bool)
    ensures
        graphic(bit_text(b)),
        tokens(bit_text(b)) == seq![bit_text(b)],
        token_is(bit_text(b), "1"@) == b,
{
    let t = bit_text(b);
    assert forall|k: int| 0 <= k < t.len() implies 33 <= #[trigger] t[k] <= 126 by {}
    lemma_graphic_token(t);
    reveal_strlit("1");
    if b {
        assert(chars_of(t) =~= "1"@);
    } else {
        lemma_not_token(t, "1"@);
    }
}

proof fn lemma_canfd_rest_tokens(f: CanFdLogEvent)
    ensures
        tokens(canfd_rest(f)) == seq![
            bit_text(f.bitrate_switch),
            bit_text(f.error_state_indicator),
            seq![100u8],
            dec_digits(f.dlc_code as nat),
            dec_digits(f.data@.len()),
        ] + hex_tokens(f.data@),
{
    lemma_bit_text(f.bitrate_switch);
    lemma_bit_text(f.error_state_indicator);
    let dk: Seq<u8> = seq![100u8];
    assert forall|k: int| 0 <= k < dk.len() implies 33 <= #[trigger] dk[k] <= 126 by {}
    lemma_graphic_token(dk);
    lemma_dec_digits_value(f.dlc_code as nat);
    lemma_graphic_token(dec_digits(f.dlc_code as nat));
    lemma_dec_digits_value(f.data@.len());
    lemma_graphic_token(dec_digits(f.data@.len()));
    lemma_hex_join_tokens(f.data@);
    lemma_nl(hex_join(f.data@, true));
    lemma_tokens_chain5(
        bit_text(f.bitrate_switch),
        bit_text(f.error_state_indicator),
        dk,
        dec_digits(f.dlc_code as nat),
        dec_digits(f.data@.len()),
        hex_join(f.data@, true) + seq![10u8],
    );
    assert(tokens(canfd_rest(f)) =~= seq![
        bit_text(f.bitrate_switch),
        bit_text(f.error_state_indicator),
        dk,
        dec_digits(f.dlc_code as nat),
        dec_digits(f.data@.len()),
    ] + hex_tokens(f.data@));
}

proof fn lemma_canfd_tokens(f: CanFdLogEvent)
    requires
        asc_representable(LogEvent::CanFd(f)),
    ensures
        tokens(canfd_line(f)) == canfd_tokens(f),
{
    lemma_number_channel(f.channel@, f.channel@->Number_0);
    lemma_head_tokens(f.timestamp_ns, f.channel@, f.arbitration_id, f.extended_id, f.direction);
    let w = canfd_word();
    assert forall|k: int| 0 <= k < w.len() implies 33 <= #[trigger] w[k] <= 126 by {}
    lemma_graphic_token(w);
    lemma_canfd_rest_tokens(f);
    lemma_canfd_shape(f);
    lemma_tokens_chain5(
        timestamp_text(f.timestamp_ns),
        w,
        channel_text(f.channel@),
        id_text(f.arbitration_id, f.extended_id),
        direction_text(f.direction),
        canfd_rest(f),
    );
    assert(tokens(canfd_line(f)) =~= canfd_tokens(f));
}

proof fn lemma_canfd_parse(f: CanFdLogEvent)
    requires
        asc_representable(LogEvent::CanFd(f)),
    ensures
        spec_parse_canfd(canfd_tokens(f), f.timestamp_ns) == Ok::<crate::event::EventModel, crate::asc::syntax::AscFault>(LogEvent::CanFd(f)@),
{
    let toks = canfd_tokens(f);
    lemma_number_channel(f.channel@, f.channel@->Number_0);
    lemma_id_text(f.arbitration_id, f.extended_id);
    lemma_direction(f.direction);
    lemma_dec_parse(f.dlc_code as nat, 255);
    lemma_dec_parse(f.data@.len(), usize::MAX as int);
    lemma_bit_text(f.bitrate_switch);
    lemma_bit_text(f.error_state_indicator);
    assert(toks[2] == channel_text(f.channel@));
    assert(toks[3] == id_text(f.arbitration_id, f.extended_id));
    assert(toks[4] == direction_text(f.direction));
    assert(toks[5] == bit_text(f.bitrate_switch));
    assert(toks[6] == bit_text(f.error_state_indicator));
    assert(toks[8] == dec_digits(f.dlc_code as nat));
    assert(toks[9] == dec_digits(f.data@.len()));
    assert(toks.subrange(10, toks.len() as int) =~= hex_tokens(f.data@));
    lemma_payload(f.data@);
}

/// A CAN FD line reads back as its frame.
proof fn lemma_canfd_line(f: CanFdLogEvent)
    requires
        asc_representable(LogEvent::CanFd(f)),
    ensures
        spec_parse_line(canfd_line(f)) == Ok::<Option<crate::event::EventModel>, crate::asc::syntax::AscFault>(Some(LogEvent::CanFd(f)@)),
{
    let line = canfd_line(f);
    lemma_canfd_tokens(f);
    lemma_canfd_parse(f);
    lemma_timestamp_text(f.timestamp_ns);
    let toks = tokens(line);
    assert(line[0] == timestamp_text(f.timestamp_ns)[0]);
    lemma_line_start(line);
    reveal_strlit("Start");
    reveal_strlit("CANFD");
    let w = canfd_word();
    lemma_not_token(w, "Start"@);
    assert(chars_of(w) =~= "CANFD"@);
    assert(toks[0] == timestamp_text(f.timestamp_ns));
    assert(toks[1] == w);
}

/// `checksum`.
pub open spec fn checksum_word() -> Seq<u8> {
    seq![99u8, 104u8, 101u8, 99u8, 107u8, 115u8, 117u8, 109u8]
}

/// The tokens after the data of a LIN line.
pub open spec fn lin_tail_tokens(c: Option<u8>) -> Seq<Seq<u8>> {
    match c {
        Some(v) => seq![checksum_word(), seq![61u8], hex2(v, true)],
        None => Seq::empty(),
    }
}

/// The end of a LIN line after its data length.
pub open spec fn lin_rest(f: LinLogEvent) -> Seq<u8> {
    hex_join(f.data@, true) + match f.checksum {
        Some(c) => checksum_text(c),
        None => Seq::empty(),
    } + seq![10u8]
}

/// The tokens of a LIN line.
pub open spec fn lin_tokens(f: LinLogEvent) -> Seq<Seq<u8>> {
    seq![
        timestamp_text(f.timestamp_ns),
        channel_text(f.channel@),
        hex_digits(f.frame_id as nat, true),
        direction_text(f.direction),
        dec_digits(f.data@.len()),
    ] + hex_tokens(f.data@) + lin_tail_tokens(f.checksum)
}

pub proof fn lemma_lin_shape(f: LinLogEvent)
    ensures
        lin_line(f) == cat_sp(
            timestamp_text(f.timestamp_ns),
            cat_sp(
                channel_text(f.channel@),
                cat_sp(
                    hex_digits(f.frame_id as nat, true),
                    cat_sp(direction_text(f.direction), cat_sp(dec_digits(f.data@.len()), lin_rest(f))),
                ),
            ),
        ),
{
    let t0 = timestamp_text(f.timestamp_ns);
    let c = channel_text(f.channel@);
    let fid = hex_digits(f.frame_id as nat, true);
    let d = direction_text(f.direction);
    let n = dec_digits(f.data@.len());
    let prefix = t0 + seq![32u8] + c + seq![32u8] + fid + seq![32u8] + d;
    assert(lin_prefix(f) =~= prefix);
    assert(lin_body(f) =~= seq![32u8] + (n + seq![32u8] + lin_rest(f)));
    assert(lin_line(f) =~= prefix + seq![32u8] + n + seq![32u8] + lin_rest(f));
    lemma_assoc5(t0, c, fid, d, n, lin_rest(f));
}

proof fn lemma_lin_rest_tokens(f: LinLogEvent)
    ensures
        tokens(lin_rest(f)) == hex_tokens(f.data@) + lin_tail_tokens(f.checksum),
{
    let j = hex_join(f.data@, true);
    lemma_hex_join_tokens(f.data@);
    match f.checksum {
        Some(v) => {
            let ck = checksum_word();
            let eq: Seq<u8> = seq![61u8];
            let h2 = hex2(v, true);
            assert forall|k: int| 0 <= k < ck.len() implies 33 <= #[trigger] ck[k] <= 126 by {}
            assert forall|k: int| 0 <= k < eq.len() implies 33 <= #[trigger] eq[k] <= 126 by {}
            lemma_graphic_token(ck);
            lemma_graphic_token(eq);
            lemma_hex2(v);
            lemma_graphic_token(h2);
            lemma_nl(h2);
            assert(lin_rest(f) =~= cat_sp(j, cat_sp(ck, cat_sp(eq, h2 + seq![10u8]))));
            lemma_cat_sp(eq, h2 + seq![10u8]);
            lemma_cat_sp(ck, cat_sp(eq, h2 + seq![10u8]));
            lemma_cat_sp(j, cat_sp(ck, cat_sp(eq, h2 + seq![10u8])));
            assert(tokens(lin_rest(f)) =~= hex_tokens(f.data@) + lin_tail_tokens(f.checksum));
        },
        None => {
            assert(lin_rest(f) =~= j + seq![10u8]);
            lemma_nl(j);
            assert(hex_tokens(f.data@) + lin_tail_tokens(f.checksum) =~= hex_tokens(f.data@));
        },
    }
}

proof fn lemma_lin_tokens(f: LinLogEvent)
    requires
        asc_representable(LogEvent::Lin(f)),
    ensures
        tokens(lin_line(f)) == lin_tokens(f),
{
    lemma_head_tokens(f.timestamp_ns, f.channel@, 0, false, f.direction);
    lemma_hex_digits_value(f.frame_id as nat);
    lemma_graphic_token(hex_digits(f.frame_id as nat, true));
    lemma_dec_digits_value(f.data@.len());
    lemma_graphic_token(dec_digits(f.data@.len()));
    lemma_lin_rest_tokens(f);
    lemma_lin_shape(f);
    lemma_tokens_chain5(
        timestamp_text(f.timestamp_ns),
        channel_text(f.channel@),
        hex_digits(f.frame_id as nat, true),
        direction_text(f.direction),
        dec_digits(f.data@.len()),
        lin_rest(f),
    );
    assert(tokens(lin_line(f)) =~= lin_tokens(f));
}

proof fn lemma_lin_parse(f: LinLogEvent)
    requires
        asc_representable(LogEvent::Lin(f)),
    ensures
        spec_parse_lin(lin_tokens(f), f.timestamp_ns) == Ok::<crate::event::EventModel, crate::asc::syntax::AscFault>(LogEvent::Lin(f)@),
{
    let toks = lin_tokens(f);
    let name = f.channel@->Named_0;
    lemma_hex_parse(f.frame_id as nat, 255);
    lemma_direction(f.direction);
    lemma_dec_parse(f.data@.len(), usize::MAX as int);
    assert(toks[1] == encode_utf8(name));
    encode_utf8_valid_utf8(name);
    encode_utf8_decode_utf8(name);
    assert(text_of(toks[1]) == name);
    assert(toks[2] == hex_digits(f.frame_id as nat, true));
    assert(toks[3] == direction_text(f.direction));
    assert(toks[4] == dec_digits(f.data@.len()));
    let tail = lin_tail_tokens(f.checksum);
    let rem = toks.subrange(5, toks.len() as int);
    assert(rem =~= hex_tokens(f.data@) + tail);
    lemma_find_after_hex(f.data@, tail);
    let len = f.data@.len() as int;
    assert(rem.subrange(0, len) =~= hex_tokens(f.data@));
    lemma_payload(f.data@);
    reveal_strlit("checksum");
    match f.checksum {
        Some(v) => {
            assert(chars_of(checksum_word()) =~= "checksum"@);
            assert(tail[0] == checksum_word());
            assert(find_token(tail, "checksum"@) == Some(0int));
            assert(rem[len + 2] == hex2(v, true));
            lemma_hex2(v);
        },
        None => {
            assert(find_token(tail, "checksum"@) == None::<int>);
            assert(rem.len() == len);
        },
    }
}

/// A LIN line reads back as its frame.
proof fn lemma_lin_line(f: LinLogEvent)
    requires
        asc_representable(LogEvent::Lin(f)),
    ensures
        spec_parse_line(lin_line(f)) == Ok::<Option<crate::event::EventModel>, crate::asc::syntax::AscFault>(Some(LogEvent::Lin(f)@)),
{
    let line = lin_line(f);
    let name = f.channel@->Named_0;
    let c = channel_text(f.channel@);
    lemma_lin_tokens(f);
    lemma_lin_parse(f);
    lemma_timestamp_text(f.timestamp_ns);
    let toks = tokens(line);
    assert(line[0] == timestamp_text(f.timestamp_ns)[0]);
    lemma_line_start(line);
    reveal_strlit("Start");
    reveal_strlit("CANFD");
    assert(c == encode_utf8(name));
    assert(c[0] == 76);
    lemma_not_token(c, "Start"@);
    lemma_not_token(c, "CANFD"@);
    assert(toks[0] == timestamp_text(f.timestamp_ns));
    assert(toks[1] == c);
}

/// The line of an event that can be represented reads back as the event.
pub proof fn lemma_asc_line_reads_back(e: LogEvent)
    requires
        asc_representable(e),
    ensures
        spec_parse_line(asc_line(e)) == Ok::<Option<crate::event::EventModel>, crate::asc::syntax::AscFault>(Some(e@)),
{
    match e {
        LogEvent::Can(f) => lemma_can_line(f),
        LogEvent::CanFd(f) => lemma_canfd_line(f),
        LogEvent::Lin(f) => lemma_lin_line(f),
        _ => {},
    }
}

} // verus!
