//! ASCII text building blocks: decimal and hexadecimal digits, fixed-point
//! seconds and padding, written as bytes and turned into `String`s.
use vstd::prelude::*;
use vstd::string::StringExecFns;
use vstd::string::StringSliceAdditionalSpecFns;
use vstd::utf8::*;
use vstd::arithmetic::div_mod::lemma_fundamental_div_mod_converse;

use crate::binary64::{
    big_from, big_mul_p2, big_val, den_at, num_at, lemma_at_zero, lemma_nearest_zero, lemma_p2_wide, lemma_nearest_window, lemma_p2_adds, lemma_p2_mono,
    lemma_p2_pos, lemma_p2_values, nearest, nearest_big, p2, round_even, value_den, value_num,
};
use crate::external::string_from_utf8_lossy;

verus! {

/// Every byte is ASCII.
pub open spec fn is_ascii_bytes(b: Seq<u8>) -> bool {
    forall|i: int| 0 <= i < b.len() ==> #[trigger] b[i] < 128
}

/// The characters that ASCII bytes stand for.
pub open spec fn chars_of(b: Seq<u8>) -> Seq<char> {
    b.map_values(|x: u8| x as char)
}

/// Decimal digits of `n`, most significant first, without leading zeros.
pub open spec fn dec_digits(n: nat) -> Seq<u8>
    decreases n,
{
    if n < 10 {
        seq![(48 + n) as u8]
    } else {
        dec_digits(n / 10).push((48 + n % 10) as u8)
    }
}

/// One hexadecimal digit, upper or lower case.
pub open spec fn hex_digit(d: nat, upper: bool) -> u8 {
    if d < 10 {
        (48 + d) as u8
    } else if upper {
        (55 + d) as u8
    } else {
        (87 + d) as u8
    }
}

/// Hexadecimal digits of `n`, most significant first, without leading zeros.
pub open spec fn hex_digits(n: nat, upper: bool) -> Seq<u8>
    decreases n,
{
    if n < 16 {
        seq![hex_digit(n, upper)]
    } else {
        hex_digits(n / 16, upper).push(hex_digit(n % 16, upper))
    }
}

/// `s` padded on the left with `fill` up to `width` bytes.
pub open spec fn pad_left(s: Seq<u8>, width: nat, fill: u8) -> Seq<u8> {
    if s.len() >= width {
        s
    } else {
        Seq::new((width - s.len()) as nat, |i: int| fill) + s
    }
}

/// Hexadecimal digits of `n` zero-padded to `width`.
pub open spec fn hex_padded(n: nat, width: nat, upper: bool) -> Seq<u8> {
    pad_left(hex_digits(n, upper), width, 48)
}

pub proof fn lemma_dec_digits_ascii(n: nat)
    ensures
        is_ascii_bytes(dec_digits(n)),
        dec_digits(n).len() >= 1,
    decreases n,
{
    if n >= 10 {
        lemma_dec_digits_ascii(n / 10);
    }
}

pub proof fn lemma_hex_digits_ascii(n: nat, upper: bool)
    ensures
        is_ascii_bytes(hex_digits(n, upper)),
        hex_digits(n, upper).len() >= 1,
    decreases n,
{
    if n >= 16 {
        lemma_hex_digits_ascii(n / 16, upper);
    }
}

/// ASCII bytes are valid UTF-8 and decode to the characters they stand for.
pub proof fn lemma_ascii_utf8(b: Seq<u8>)
    requires
        is_ascii_bytes(b),
    ensures
        valid_utf8(b),
        decode_utf8(b) == chars_of(b),
{
    let c = chars_of(b);
    assert(is_ascii_chars(c)) by {
        assert forall|i: int| 0 <= i < c.len() implies '\0' <= #[trigger] c[i] <= '\u{7f}' by {
            assert(b[i] < 128);
        }
    }
    is_ascii_chars_encode_utf8(c);
    assert forall|i: int| 0 <= i < b.len() implies encode_utf8(c)[i] == b[i] by {
        assert(c[i] as u8 == encode_utf8(c)[i]);
        assert(c[i] == b[i] as char);
    }
    assert(encode_utf8(c) =~= b);
    encode_utf8_valid_utf8(c);
    encode_utf8_decode_utf8(c);
}

/// Turns ASCII bytes into a `String` holding the same characters.
pub fn ascii_string(b: &[u8]) -> (s: String)
    requires
        is_ascii_bytes(b@),
    ensures
        s@ == chars_of(b@),
{
    proof {
        lemma_ascii_utf8(b@);
    }
    string_from_utf8_lossy(b)
}

/// Appends the decimal digits of `n`.
pub fn push_decimal(out: &mut Vec<u8>, n: u64)
    ensures
        final(out)@ == old(out)@ + dec_digits(n as nat),
    decreases n,
{
    if n >= 10 {
        push_decimal(out, n / 10);
    }
    out.push((48 + n % 10) as u8);
    proof {
        assert(old(out)@ + dec_digits(n as nat) =~= final(out)@) by {
            if n >= 10 {
                assert(dec_digits(n as nat) == dec_digits((n / 10) as nat).push((48 + n % 10) as u8));
            }
        }
    }
}

/// One hexadecimal digit of a value below 16.
pub fn hex_digit_byte(d: u8, upper: bool) -> (b: u8)
    requires
        d < 16,
    ensures
        b == hex_digit(d as nat, upper),
{
    if d < 10 {
        48 + d
    } else if upper {
        55 + d
    } else {
        87 + d
    }
}

/// Appends the hexadecimal digits of `n`.
pub fn push_hex(out: &mut Vec<u8>, n: u64, upper: bool)
    ensures
        final(out)@ == old(out)@ + hex_digits(n as nat, upper),
    decreases n,
{
    if n >= 16 {
        push_hex(out, n / 16, upper);
    }
    let d = hex_digit_byte((n % 16) as u8, upper);
    out.push(d);
    proof {
        assert(old(out)@ + hex_digits(n as nat, upper) =~= final(out)@) by {
            if n >= 16 {
                assert(hex_digits(n as nat, upper) == hex_digits((n / 16) as nat, upper).push(
                    hex_digit((n % 16) as nat, upper),
                ));
            }
        }
    }
}

/// Appends `count` copies of `fill`.
pub fn push_repeated(out: &mut Vec<u8>, fill: u8, count: usize)
    ensures
        final(out)@ == old(out)@ + Seq::new(count as nat, |i: int| fill),
{
    let mut i: usize = 0;
    while i < count
        invariant
            i <= count,
            out@ == old(out)@ + Seq::new(i as nat, |k: int| fill),
        decreases count - i,
    {
        out.push(fill);
        i = i + 1;
        assert(out@ =~= old(out)@ + Seq::new(i as nat, |k: int| fill));
    }
}

/// Appends `s` padded on the left with `fill` up to `width` bytes.
pub fn push_padded(out: &mut Vec<u8>, s: &[u8], width: usize, fill: u8)
    ensures
        final(out)@ == old(out)@ + pad_left(s@, width as nat, fill),
{
    if s.len() < width {
        push_repeated(out, fill, width - s.len());
    }
    let mut i: usize = 0;
    let ghost mid = out@;
    while i < s.len()
        invariant
            i <= s.len(),
            out@ == mid + s@.subrange(0, i as int),
        decreases s.len() - i,
    {
        out.push(s[i]);
        i = i + 1;
        assert(out@ =~= mid + s@.subrange(0, i as int));
    }
    assert(s@.subrange(0, s.len() as int) =~= s@);
    assert(final(out)@ =~= old(out)@ + pad_left(s@, width as nat, fill));
}

/// Appends the hexadecimal digits of `n` zero-padded to `width`.
pub fn push_hex_padded(out: &mut Vec<u8>, n: u64, width: usize, upper: bool)
    ensures
        final(out)@ == old(out)@ + hex_padded(n as nat, width as nat, upper),
{
    let mut digits: Vec<u8> = Vec::new();
    push_hex(&mut digits, n, upper);
    assert(digits@ =~= hex_digits(n as nat, upper));
    push_padded(out, digits.as_slice(), width, 48);
}


/// Two-digit hexadecimal form of a byte.
pub open spec fn hex2(b: u8, upper: bool) -> Seq<u8> {
    seq![hex_digit((b / 16) as nat, upper), hex_digit((b % 16) as nat, upper)]
}

/// Bytes as two-digit hexadecimal numbers separated by single spaces.
pub open spec fn hex_join(s: Seq<u8>, upper: bool) -> Seq<u8>
    decreases s.len(),
{
    if s.len() == 0 {
        Seq::empty()
    } else if s.len() == 1 {
        hex2(s[0], upper)
    } else {
        hex_join(s.drop_last(), upper) + seq![32u8] + hex2(s.last(), upper)
    }
}

/// A whole number as seconds with six decimals: `n` millionths.
pub open spec fn six_decimals(n: nat) -> Seq<u8> {
    dec_digits(n / 1_000_000) + seq![46u8] + pad_left(dec_digits(n % 1_000_000), 6, 48)
}

/// A nanosecond count below `2^64` as seconds with six decimals, as
/// `format!("{:.6}", ns as f64 / 1e9)` writes it: the count rounded to
/// binary64, divided by `10^9` with binary64 rounding, and the exact binary
/// value rounded to six decimals with ties to even. (`inf` is what would be
/// written for an infinite quotient, which no such count gives.)
#[verifier::opaque]
pub open spec fn fixed6(ns: nat) -> Seq<u8> {
    if ns == 0 {
        six_decimals(0)
    } else {
        match seconds_f64(ns) {
            None => seq![105u8, 110u8, 102u8],
            Some((m2, e2)) => six_decimals(round_even(value_num(m2, e2) * 1_000_000, value_den(e2))),
        }
    }
}

/// `ns as f64 / 1e9` as a binary64 significand and exponent; `None` where
/// infinite.
#[verifier::opaque]
pub open spec fn seconds_f64(ns: nat) -> Option<(nat, int)> {
    match nearest(ns, 1) {
        None => None,
        Some((m, e)) => nearest(value_num(m, e), 1_000_000_000 * value_den(e)),
    }
}

/// Appends the two-digit hexadecimal form of a byte.
pub fn push_hex2(out: &mut Vec<u8>, b: u8, upper: bool)
    ensures
        final(out)@ == old(out)@ + hex2(b, upper),
{
    let hi = hex_digit_byte(b / 16, upper);
    let lo = hex_digit_byte(b % 16, upper);
    out.push(hi);
    out.push(lo);
    assert(final(out)@ =~= old(out)@ + hex2(b, upper));
}

/// Appends bytes as two-digit hexadecimal numbers separated by single spaces.
pub fn push_hex_join(out: &mut Vec<u8>, s: &[u8], upper: bool)
    ensures
        final(out)@ == old(out)@ + hex_join(s@, upper),
{
    let mut i: usize = 0;
    while i < s.len()
        invariant
            i <= s.len(),
            out@ == old(out)@ + hex_join(s@.subrange(0, i as int), upper),
        decreases s.len() - i,
    {
        let ghost before = out@;
        if i > 0 {
            out.push(32u8);
        }
        push_hex2(out, s[i], upper);
        proof {
            let t = s@.subrange(0, i + 1);
            assert(t.drop_last() =~= s@.subrange(0, i as int));
            assert(t.last() == s@[i as int]);
            if i == 0 {
                assert(hex_join(t, upper) == hex2(s@[0], upper));
            }
            assert(out@ =~= old(out)@ + hex_join(t, upper));
        }
        i = i + 1;
    }
    assert(s@.subrange(0, s.len() as int) =~= s@);
}

/// Appends the decimal digits of a wide number.
fn push_decimal_wide(out: &mut Vec<u8>, n: u128)
    ensures
        final(out)@ == old(out)@ + dec_digits(n as nat),
    decreases n,
{
    if n >= 10 {
        push_decimal_wide(out, n / 10);
    }
    out.push((48 + n % 10) as u8);
    proof {
        assert(old(out)@ + dec_digits(n as nat) =~= final(out)@) by {
            if n >= 10 {
                assert(dec_digits(n as nat) == dec_digits((n / 10) as nat).push((48 + n % 10) as u8));
            }
        }
    }
}

/// Appends a number of millionths as seconds with six decimals.
fn push_six_decimals(out: &mut Vec<u8>, n: u128)
    ensures
        final(out)@ == old(out)@ + six_decimals(n as nat),
{
    push_decimal_wide(out, n / 1_000_000);
    out.push(46u8);
    let mut frac: Vec<u8> = Vec::new();
    push_decimal_wide(&mut frac, n % 1_000_000);
    assert(frac@ =~= dec_digits((n % 1_000_000) as nat));
    push_padded(out, frac.as_slice(), 6, 48);
    assert(final(out)@ =~= old(out)@ + six_decimals(n as nat));
}

/// `ns as f64 / 1e9`, whose exponent is negative.
fn seconds_exec(ns: u64) -> (r: Option<(u64, i32)>)
    requires
        ns >= 1,
    ensures
        match r {
            None => seconds_f64(ns as nat) is None,
            Some((m2, e2)) => seconds_f64(ns as nat) == Some((m2 as nat, e2 as int)) && e2 < 0
                && -1074 <= e2 && m2 <= p2(53),
        },
{
    proof {
        reveal(seconds_f64);
        lemma_p2_values();
    }
    let one = big_from(1);
    let first = nearest_big(&big_from(ns), &one);
    let (m, e) = match first {
        None => {
            return None;
        },
        Some(x) => x,
    };
    proof {
        if e >= 0 {
            lemma_nearest_window(ns as nat, 1);
            lemma_p2_pos(e as nat);
            assert(den_at(1, -e) == p2(e as nat));
            if e > 11 {
                lemma_p2_mono(12, e as nat);
                reveal_with_fuel(p2, 13);
                assert(p2(52) * p2(e as nat) >= p2(52) * 4096) by (nonlinear_arith)
                    requires
                        p2(e as nat) >= 4096,
                ;
            }
            assert(e <= 11);
            lemma_p2_mono(e as nat, 11);
            lemma_p2_adds(53, 11);
            assert(m * p2(e as nat) <= p2(53) * p2(11)) by (nonlinear_arith)
                requires
                    m <= p2(53),
                    p2(e as nat) <= p2(11),
            ;
            assert(53nat + 11 == 64nat);
        } else {
            lemma_p2_pos((-e) as nat);
            lemma_p2_mono(53, 64);
            assert(m <= p2(64) * p2((-e) as nat)) by (nonlinear_arith)
                requires
                    m <= p2(53),
                    p2(53) <= p2(64),
                    p2((-e) as nat) >= 1,
            ;
        }
        assert(value_num(m as nat, e as int) <= p2(64) * value_den(e as int));
    }
    let num = if e >= 0 {
        big_mul_p2(&big_from(m), e as u32)
    } else {
        big_from(m)
    };
    let den = if e >= 0 {
        big_from(1_000_000_000)
    } else {
        big_mul_p2(&big_from(1_000_000_000), (-e) as u32)
    };
    let ghost pv = value_num(m as nat, e as int);
    let ghost vd = value_den(e as int);
    let ghost qv = 1_000_000_000 * vd;
    proof {
        assert(big_val(num@) == pv);
        assert(big_val(den@) == qv) by (nonlinear_arith)
            requires
                e >= 0 ==> big_val(den@) == 1_000_000_000nat && vd == 1,
                e < 0 ==> big_val(den@) == 1_000_000_000 * p2((-e) as nat) && vd == p2((-e) as nat),
                qv == 1_000_000_000 * vd,
        ;
        if e >= 0 {
            lemma_p2_pos(e as nat);
            assert(m * p2(e as nat) >= 1) by (nonlinear_arith)
                requires
                    m >= 1,
                    p2(e as nat) >= 1,
            ;
        } else {
            lemma_p2_pos((-e) as nat);
        }
        assert(vd >= 1);
    }
    if m == 0 {
        proof {
            assert(pv == 0);
            lemma_nearest_zero(qv);
            lemma_p2_values();
        }
        return Some((0, -1074));
    }
    proof {
        assert(pv >= 1) by {
            if e < 0 {
                assert(pv == m);
            }
        }
    }
    let second = nearest_big(&num, &den);
    let (m2, e2) = match second {
        None => {
            return None;
        },
        Some(x) => x,
    };
    proof {
        if e2 >= 0 {
            lemma_nearest_window(pv, qv);
            lemma_p2_pos(e2 as nat);
            lemma_at_zero(pv, qv);
            assert(p2(0) == 1);
            assert(qv * 1 == qv);
            assert(den_at(qv, -e2) == qv * p2(e2 as nat));
            assert(num_at(pv, -e2) == pv);
            assert(false) by (nonlinear_arith)
                requires
                    p2(52) * (qv * p2(e2 as nat)) <= pv,
                    pv <= p2(64) * vd,
                    qv == 1_000_000_000 * vd,
                    p2(e2 as nat) >= 1,
                    vd >= 1,
                    p2(52) == 0x10_0000_0000_0000,
                    p2(64) == 0x1_0000_0000_0000_0000,
            ;
        }
    }
    Some((m2, e2))
}

/// Appends a nanosecond count as seconds with six decimals.
pub fn push_fixed6(out: &mut Vec<u8>, ns: u64)
    ensures
        final(out)@ == old(out)@ + fixed6(ns as nat),
{
    reveal(fixed6);
    if ns == 0 {
        push_six_decimals(out, 0);
        return;
    }
    let (m2, e2) = match seconds_exec(ns) {
        None => {
            push_inf(out);
            return;
        },
        Some(x) => x,
    };
    proof {
        lemma_p2_values();
    }
    let s2: i32 = -e2;
    let n: u128 = (m2 as u128) * 1_000_000;
    proof {
        assert(value_num(m2 as nat, e2 as int) == m2);
        assert(value_den(e2 as int) == p2(s2 as nat));
        assert(n <= 0x20_0000_0000_0000 * 1_000_000);
    }
    if s2 > 100 {
        proof {
            lemma_p2_mono(101, s2 as nat);
            lemma_p2_wide();
            lemma_fundamental_div_mod_converse(n as int, p2(s2 as nat) as int, 0, n as int);
        }
        push_six_decimals(out, 0);
        return;
    }
    let mut d: u128 = 1;
    let mut i: i32 = 0;
    assert(p2(0) == 1);
    while i < s2
        invariant
            0 <= i <= s2 <= 100,
            d == p2(i as nat),
        decreases s2 - i,
    {
        proof {
            lemma_p2_mono((i + 1) as nat, 100);
            lemma_p2_wide();
            assert(p2((i + 1) as nat) == 2 * p2(i as nat));
        }
        d = d * 2;
        i = i + 1;
    }
    proof {
        lemma_p2_mono(s2 as nat, 100);
        lemma_p2_wide();
        lemma_p2_pos(s2 as nat);
    }
    let f = n / d;
    let r = n % d;
    let big_n: u128 = if 2 * r > d || (2 * r == d && f % 2 == 1) {
        f + 1
    } else {
        f
    };
    push_six_decimals(out, big_n);
}

fn push_inf(out: &mut Vec<u8>)
    ensures
        final(out)@ == old(out)@ + seq![105u8, 110u8, 102u8],
{
    out.push(105);
    out.push(110);
    out.push(102);
    assert(final(out)@ =~= old(out)@ + seq![105u8, 110u8, 102u8]);
}

pub proof fn lemma_pad_left_ascii(s: Seq<u8>, width: nat, fill: u8)
    requires
        is_ascii_bytes(s),
        fill < 128,
    ensures
        is_ascii_bytes(pad_left(s, width, fill)),
{
    let p = pad_left(s, width, fill);
    assert forall|i: int| 0 <= i < p.len() implies #[trigger] p[i] < 128 by {
        if s.len() < width {
            if i >= width - s.len() {
                assert(p[i] == s[i - (width - s.len())]);
            }
        }
    }
}

pub proof fn lemma_hex_join_ascii(s: Seq<u8>, upper: bool)
    ensures
        is_ascii_bytes(hex_join(s, upper)),
    decreases s.len(),
{
    if s.len() > 1 {
        lemma_hex_join_ascii(s.drop_last(), upper);
    }
}

pub proof fn lemma_fixed6_ascii(ns: nat)
    ensures
        is_ascii_bytes(fixed6(ns)),
{
    reveal(fixed6);
    let t = fixed6(ns);
    let inf = seq![105u8, 110u8, 102u8];
    if t == inf {
        assert forall|i: int| 0 <= i < inf.len() implies #[trigger] inf[i] < 128 by {}
    } else {
        let n: nat = if ns == 0 {
            0
        } else {
            let (m2, e2) = seconds_f64(ns)->Some_0;
            round_even(value_num(m2, e2) * 1_000_000, value_den(e2))
        };
        assert(t == six_decimals(n));
        lemma_dec_digits_ascii(n / 1_000_000);
        lemma_dec_digits_ascii(n % 1_000_000);
        lemma_pad_left_ascii(dec_digits(n % 1_000_000), 6, 48);
        assert forall|i: int| 0 <= i < t.len() implies #[trigger] t[i] < 128 by {
            let a = dec_digits(n / 1_000_000);
            let b = pad_left(dec_digits(n % 1_000_000), 6, 48);
            if i < a.len() {
                assert(t[i] == a[i]);
            } else if i > a.len() {
                assert(t[i] == b[i - a.len() - 1]);
            }
        }
    }
}


/// The decimal digits of `n` as a `String`.
pub fn decimal_string(n: u64) -> (s: String)
    ensures
        s@ == chars_of(dec_digits(n as nat)),
{
    let mut digits: Vec<u8> = Vec::new();
    push_decimal(&mut digits, n);
    proof {
        lemma_dec_digits_ascii(n as nat);
        assert(digits@ =~= dec_digits(n as nat));
    }
    ascii_string(digits.as_slice())
}

/// `prefix`, the decimal digits of `n`, then `suffix`.
pub fn text_with_number(prefix: &str, n: u64, suffix: &str) -> (s: String)
    ensures
        s@ == prefix@ + chars_of(dec_digits(n as nat)) + suffix@,
{
    let number = decimal_string(n);
    let text = String::from_str(prefix);
    let text = text.concat(number.as_str());
    text.concat(suffix)
}


/// `prefix` followed by the decimal digits of `n`.
pub fn text_then_number(prefix: &str, n: u64) -> (s: String)
    ensures
        s@ == prefix@ + chars_of(dec_digits(n as nat)),
{
    let number = decimal_string(n);
    let text = String::from_str(prefix);
    text.concat(number.as_str())
}

/// Whether two strings hold the same characters (compared byte by byte).
pub fn str_equal(a: &str, b: &str) -> (r: bool)
    ensures
        r == (a@ == b@),
{
    let x = a.as_bytes();
    let y = b.as_bytes();
    proof {
        encode_utf8_decode_utf8(a@);
        encode_utf8_decode_utf8(b@);
    }
    if x.len() != y.len() {
        return false;
    }
    let mut i: usize = 0;
    while i < x.len()
        invariant
            i <= x@.len(),
            x@.len() == y@.len(),
            x@ == encode_utf8(a@),
            y@ == encode_utf8(b@),
            forall|k: int| 0 <= k < i ==> x@[k] == y@[k],
        decreases x@.len() - i,
    {
        if x[i] != y[i] {
            assert(x@ != y@);
            return false;
        }
        i = i + 1;
    }
    assert(x@ =~= y@);
    true
}

} // verus!
