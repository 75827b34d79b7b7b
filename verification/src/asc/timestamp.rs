//! Timestamps in seconds, in every spelling that `f64::from_str` accepts,
//! converted to whole nanoseconds.
use vstd::prelude::*;

use vstd::arithmetic::div_mod::lemma_fundamental_div_mod_converse;

use crate::asc::syntax::{
    all_digits, digit_value, digits_value, dot_index, frac_part, int_part, lemma_digits_value_bound,
    lemma_digits_value_nonneg, lemma_dot_index, lemma_pow10_small, pow10, signed_body,
};
use crate::binary64::{
    big_from, big_mul_add, big_mul_p2, big_mul_pow10, big_val, lemma_bin_exp_overflow,
    lemma_bin_exp_subnormal, lemma_p2_adds, lemma_p2_mono, lemma_p2_pos, lemma_p2_values,
    nearest, nearest_big, den_at, num_at, p2, round_even, value_den, value_num,
};
use crate::blf::reader::clamp_i64;

verus! {

/// Nanosecond values from here on are all the same to the result.
pub const NS_CAP: u128 = 9_223_372_036_854_775_808;

/// Exponents of this size or more are all the same to the result.
pub const EXP_CAP: u128 = 73_786_976_294_838_206_464;

/// A byte with ASCII capitals made small.
pub open spec fn ascii_lower(c: u8) -> u8 {
    if 65 <= c && c <= 90 {
        (c + 32) as u8
    } else {
        c
    }
}

/// `s` spells `word` (written in small letters) in any mix of cases.
pub open spec fn spells(s: Seq<u8>, word: Seq<u8>) -> bool {
    &&& s.len() == word.len()
    &&& forall|i: int| 0 <= i < s.len() ==> ascii_lower(#[trigger] s[i]) == word[i]
}

/// `inf`
pub open spec fn inf_word() -> Seq<u8> {
    seq![105u8, 110u8, 102u8]
}

/// `infinity`
pub open spec fn infinity_word() -> Seq<u8> {
    seq![105u8, 110u8, 102u8, 105u8, 110u8, 105u8, 116u8, 121u8]
}

/// `nan`
pub open spec fn nan_word() -> Seq<u8> {
    seq![110u8, 97u8, 110u8]
}

/// `e` or `E`.
pub open spec fn is_exp_mark(c: u8) -> bool {
    c == 69 || c == 101
}

/// The position of the first `e` or `E`, or the length.
pub open spec fn exp_index(s: Seq<u8>) -> int
    decreases s.len(),
{
    if s.len() == 0 {
        0
    } else if is_exp_mark(s[0]) {
        0
    } else {
        1 + exp_index(s.drop_first())
    }
}

pub proof fn lemma_exp_index(s: Seq<u8>)
    ensures
        0 <= exp_index(s) <= s.len(),
        exp_index(s) < s.len() ==> is_exp_mark(s[exp_index(s)]),
        forall|k: int| 0 <= k < exp_index(s) ==> !is_exp_mark(#[trigger] s[k]),
    decreases s.len(),
{
    if s.len() > 0 && !is_exp_mark(s[0]) {
        lemma_exp_index(s.drop_first());
        assert forall|k: int| 0 <= k < exp_index(s) implies !is_exp_mark(#[trigger] s[k]) by {
            if k > 0 {
                assert(s[k] == s.drop_first()[k - 1]);
            }
        }
    }
}

/// The number before the exponent.
pub open spec fn mantissa(s: Seq<u8>) -> Seq<u8> {
    s.subrange(0, exp_index(s))
}

/// The power of ten written after `e`: zero where there is no `e`, `None`
/// where what follows it is not an optionally signed run of digits.
pub open spec fn exponent_value(s: Seq<u8>) -> Option<int> {
    if exp_index(s) < s.len() {
        let e = s.subrange(exp_index(s) + 1, s.len() as int);
        let b = signed_body(e);
        if b.len() > 0 && all_digits(b, 10) {
            Some(
                if e[0] == 45 {
                    -digits_value(b, 10)
                } else {
                    digits_value(b, 10)
                },
            )
        } else {
            None
        }
    } else {
        Some(0)
    }
}

/// `n / d` rounded to a whole number, halves away from zero (`f64::round`
/// on a positive value).
pub open spec fn half_up(n: nat, d: nat) -> nat {
    (2 * n + d) / (2 * d)
}

/// `(x * 1e9).round()` for the positive binary64 value `x = m · 2^e`: the
/// product rounded to binary64, then to a whole number; `None` where the
/// product is infinite.
pub open spec fn ns_of_seconds(m: nat, e: int) -> Option<nat> {
    match nearest(value_num(m, e) * 1_000_000_000, value_den(e)) {
        None => None,
        Some((m2, e2)) => Some(half_up(value_num(m2, e2), value_den(e2))),
    }
}

/// `(x * 1e9).round()` for `x` the binary64 value nearest the decimal
/// `d · 10^k` (what `f64::from_str` gives); `None` where `x` or the product
/// is infinite.
#[verifier::opaque]
pub open spec fn decimal_ns(d: nat, k: int) -> Option<nat> {
    if d == 0 {
        Some(0)
    } else {
        match nearest(
            (d * pow10(
                if k >= 0 {
                    k as nat
                } else {
                    0
                },
            )) as nat,
            pow10(
                if k < 0 {
                    (-k) as nat
                } else {
                    0
                },
            ) as nat,
        ) {
            None => None,
            Some((m, e)) => if m == 0 {
                Some(0)
            } else {
                ns_of_seconds(m, e)
            },
        }
    }
}

/// A timestamp in seconds converted to nanoseconds as
/// `(token.parse::<f64>()? * 1e9).round() as i64` converts it. The token is
/// what `f64::from_str` accepts: an optional sign, then `inf`, `infinity` or
/// `nan` in any case, or digits with an optional decimal point and an
/// optional exponent after `e` or `E`. Its value is rounded to the nearest
/// binary64 value (ties to even), multiplied by `10^9` with binary64
/// rounding, rounded to a whole number with halves away from zero, and
/// saturated to `i64`; infinities give the bound of their sign and NaN
/// gives zero.
pub open spec fn spec_timestamp_ns(token: Seq<u8>) -> Option<i64> {
    let body = signed_body(token);
    let negative = token.len() > 0 && token[0] == 45;
    if spells(body, inf_word()) || spells(body, infinity_word()) {
        Some(
            if negative {
                i64::MIN
            } else {
                i64::MAX
            },
        )
    } else if spells(body, nan_word()) {
        Some(0)
    } else {
        let m = mantissa(body);
        let ip = int_part(m);
        let fp = frac_part(m);
        let e = exponent_value(body);
        if e is None || ip.len() + fp.len() == 0 || !all_digits(ip, 10) || !all_digits(fp, 10) {
            None
        } else {
            match decimal_ns(digits_value(ip + fp, 10) as nat, e.unwrap() - fp.len()) {
                None => Some(
                    if negative {
                        i64::MIN
                    } else {
                        i64::MAX
                    },
                ),
                Some(r) => Some(
                    clamp_i64(
                        if negative {
                            -r
                        } else {
                            r as int
                        },
                    ),
                ),
            }
        }
    }
}

/// `x`, or the cap where `x` reaches it.
pub open spec fn capped(x: int, cap: int) -> int {
    if x < cap {
        x
    } else {
        cap
    }
}

pub proof fn lemma_pow10_pos(n: nat)
    ensures
        pow10(n) >= 1,
    decreases n,
{
    if n > 0 {
        lemma_pow10_pos((n - 1) as nat);
    }
}

/// Digits one after the other are worth the first times a power of ten
/// plus the second.
pub proof fn lemma_digits_concat(a: Seq<u8>, b: Seq<u8>)
    ensures
        digits_value(a + b, 10) == digits_value(a, 10) * pow10(b.len()) + digits_value(b, 10),
    decreases b.len(),
{
    if b.len() == 0 {
        assert(a + b =~= a);
    } else {
        let b0 = b.drop_last();
        lemma_digits_concat(a, b0);
        assert((a + b).drop_last() =~= a + b0);
        assert((a + b).last() == b.last());
        let x = digits_value(a, 10);
        let y = digits_value(b0, 10);
        let z = digit_value(b.last(), 10);
        let p = pow10(b0.len());
        assert(pow10(b.len()) == 10 * p);
        assert((x * p + y) * 10 + z == x * (10 * p) + (y * 10 + z)) by (nonlinear_arith);
    }
}

fn lower(c: u8) -> (r: u8)
    ensures
        r == ascii_lower(c),
{
    if 65 <= c && c <= 90 {
        c + 32
    } else {
        c
    }
}

fn spells_word(s: &[u8], w: &Vec<u8>) -> (r: bool)
    ensures
        r == spells(s@, w@),
{
    if s.len() != w.len() {
        return false;
    }
    let mut i: usize = 0;
    while i < s.len()
        invariant
            0 <= i <= s.len(),
            s.len() == w.len(),
            forall|j: int| 0 <= j < i ==> ascii_lower(#[trigger] s@[j]) == w@[j],
        decreases s.len() - i,
    {
        if lower(s[i]) != w[i] {
            assert(ascii_lower(s@[i as int]) != w@[i as int]);
            return false;
        }
        i = i + 1;
    }
    true
}

fn inf_bytes() -> (w: Vec<u8>)
    ensures
        w@ == inf_word(),
{
    let mut w: Vec<u8> = Vec::new();
    w.push(105);
    w.push(110);
    w.push(102);
    assert(w@ =~= inf_word());
    w
}

fn infinity_bytes() -> (w: Vec<u8>)
    ensures
        w@ == infinity_word(),
{
    let mut w = inf_bytes();
    w.push(105);
    w.push(110);
    w.push(105);
    w.push(116);
    w.push(121);
    assert(w@ =~= infinity_word());
    w
}

fn nan_bytes() -> (w: Vec<u8>)
    ensures
        w@ == nan_word(),
{
    let mut w: Vec<u8> = Vec::new();
    w.push(110);
    w.push(97);
    w.push(110);
    assert(w@ =~= nan_word());
    w
}

fn find_exp(s: &[u8]) -> (r: usize)
    ensures
        r == exp_index(s@),
{
    proof {
        lemma_exp_index(s@);
    }
    let mut i: usize = 0;
    while i < s.len() && !(s[i] == 69 || s[i] == 101)
        invariant
            0 <= i <= s.len(),
            forall|k: int| 0 <= k < i ==> !is_exp_mark(#[trigger] s@[k]),
            0 <= exp_index(s@) <= s@.len(),
            exp_index(s@) < s@.len() ==> is_exp_mark(s@[exp_index(s@)]),
            forall|k: int| 0 <= k < exp_index(s@) ==> !is_exp_mark(#[trigger] s@[k]),
        decreases s.len() - i,
    {
        i = i + 1;
    }
    proof {
        if i < s.len() {
            assert(is_exp_mark(s@[i as int]));
        }
    }
    i
}

/// The digits of the mantissa `s[..end]` before and after its point, with
/// the number of those after it; `None` where either part holds a byte that
/// is not a digit.
fn mantissa_digits(s: &[u8], end: usize) -> (r: Option<(Vec<u8>, usize)>)
    requires
        end <= s.len(),
    ensures
        ({
            let m = s@.subrange(0, end as int);
            let ip = int_part(m);
            let fp = frac_part(m);
            match r {
                None => !(all_digits(ip, 10) && all_digits(fp, 10)),
                Some((d, f)) => all_digits(ip, 10) && all_digits(fp, 10) && d@ == ip + fp && f
                    == fp.len(),
            }
        }),
{
    let ghost m = s@.subrange(0, end as int);
    let ghost ip = int_part(m);
    let ghost fp = frac_part(m);
    proof {
        lemma_dot_index(m);
    }
    let mut digits: Vec<u8> = Vec::new();
    let mut i: usize = 0;
    while i < end && s[i] != 46
        invariant
            0 <= i <= end <= s.len(),
            m == s@.subrange(0, end as int),
            ip == int_part(m),
            fp == frac_part(m),
            forall|k: int| 0 <= k < i ==> #[trigger] s@[k] != 46,
            0 <= dot_index(m) <= m.len(),
            dot_index(m) < m.len() ==> m[dot_index(m)] == 46,
            forall|k: int| 0 <= k < dot_index(m) ==> m[k] != 46,
            digits@ == s@.subrange(0, i as int),
            all_digits(digits@, 10),
        decreases end - i,
    {
        let c = s[i];
        assert(m[i as int] == c);
        assert(i < dot_index(m));
        if !(48 <= c && c <= 57) {
            assert(ip[i as int] == c);
            assert(digit_value(ip[i as int], 10) < 0);
            return None;
        }
        let ghost pre = digits@;
        digits.push(c);
        i = i + 1;
        assert(digits@ =~= s@.subrange(0, i as int));
        assert(all_digits(digits@, 10)) by {
            assert forall|k: int| 0 <= k < digits@.len() implies digit_value(
                #[trigger] digits@[k],
                10,
            ) >= 0 by {
                if k < pre.len() {
                    assert(digits@[k] == pre[k]);
                }
            }
        }
    }
    proof {
        if i < end {
            assert(m[i as int] == 46);
        }
    }
    assert(i == dot_index(m));
    assert(digits@ =~= ip);
    if i == end {
        assert(fp =~= Seq::<u8>::empty());
        assert(digits@ =~= ip + fp);
        return Some((digits, 0));
    }
    let fs: usize = i + 1;
    assert(fp =~= s@.subrange(fs as int, end as int));
    let mut j: usize = fs;
    while j < end
        invariant
            fs <= j <= end <= s.len(),
            m == s@.subrange(0, end as int),
            ip == int_part(m),
            fp == frac_part(m),
            fp == s@.subrange(fs as int, end as int),
            all_digits(ip, 10),
            digits@ == ip + s@.subrange(fs as int, j as int),
            all_digits(digits@, 10),
        decreases end - j,
    {
        let c = s[j];
        if !(48 <= c && c <= 57) {
            assert(fp[j - fs] == c);
            assert(digit_value(fp[j - fs], 10) < 0);
            return None;
        }
        let ghost pre = digits@;
        digits.push(c);
        j = j + 1;
        assert(digits@ =~= ip + s@.subrange(fs as int, j as int));
        assert(all_digits(digits@, 10)) by {
            assert forall|k: int| 0 <= k < digits@.len() implies digit_value(
                #[trigger] digits@[k],
                10,
            ) >= 0 by {
                if k < pre.len() {
                    assert(digits@[k] == pre[k]);
                }
            }
        }
    }
    assert(digits@ =~= ip + fp);
    assert(all_digits(fp, 10)) by {
        assert forall|k: int| 0 <= k < fp.len() implies digit_value(#[trigger] fp[k], 10) >= 0 by {
            assert(fp[k] == digits@[ip.len() + k]);
        }
    }
    Some((digits, end - fs))
}

/// The exponent after `s[at]`, as its sign and its size up to the cap.
fn exponent_capped(s: &[u8], at: usize) -> (r: Option<(bool, u128)>)
    requires
        at == exp_index(s@),
        at <= s.len(),
    ensures
        match r {
            None => exponent_value(s@) is None,
            Some((neg, mag)) => {
                &&& exponent_value(s@) is Some
                &&& mag <= EXP_CAP
                &&& mag < EXP_CAP ==> exponent_value(s@).unwrap() == if neg {
                    -mag
                } else {
                    mag as int
                }
                &&& mag == EXP_CAP ==> if neg {
                    exponent_value(s@).unwrap() <= -(EXP_CAP as int)
                } else {
                    exponent_value(s@).unwrap() >= EXP_CAP
                }
            },
        },
{
    let len = s.len();
    if at == len {
        return Some((false, 0));
    }
    let ghost e = s@.subrange(at + 1, len as int);
    let ghost b = signed_body(e);
    let mut j: usize = at + 1;
    let neg = j < len && s[j] == 45;
    if j < len && (s[j] == 43 || s[j] == 45) {
        j = j + 1;
    }
    let bs = j;
    assert(b =~= s@.subrange(bs as int, len as int));
    if bs == len {
        return None;
    }
    let mut mag: u128 = 0;
    while j < len
        invariant
            bs <= j <= len == s.len(),
            at == exp_index(s@),
            at < len,
            e == s@.subrange(at + 1, len as int),
            b == signed_body(e),
            b == s@.subrange(bs as int, len as int),
            all_digits(s@.subrange(bs as int, j as int), 10),
            mag == capped(digits_value(s@.subrange(bs as int, j as int), 10), EXP_CAP as int),
        decreases len - j,
    {
        let c = s[j];
        if !(48 <= c && c <= 57) {
            assert(b[j - bs] == c);
            assert(digit_value(b[j - bs], 10) < 0);
            return None;
        }
        let ghost pre = s@.subrange(bs as int, j as int);
        let ghost next = s@.subrange(bs as int, j + 1);
        assert(next.drop_last() =~= pre);
        proof {
            lemma_digits_value_nonneg(pre, 10);
        }
        let grown = mag * 10 + (c - 48) as u128;
        mag = if grown >= EXP_CAP {
            EXP_CAP
        } else {
            grown
        };
        j = j + 1;
        assert(all_digits(next, 10)) by {
            assert forall|k: int| 0 <= k < next.len() implies digit_value(#[trigger] next[k], 10)
                >= 0 by {
                if k < pre.len() {
                    assert(next[k] == pre[k]);
                }
            }
        }
    }
    assert(s@.subrange(bs as int, j as int) =~= b);
    proof {
        lemma_digits_value_nonneg(b, 10);
        assert(e[0] == s@[at + 1]);
    }
    Some((neg, mag))
}

/// The value of the first `n` digits, up to the cap.
fn capped_value(d: &Vec<u8>, n: usize) -> (r: u128)
    requires
        all_digits(d@, 10),
        n <= d.len(),
    ensures
        r == capped(digits_value(d@.subrange(0, n as int), 10), NS_CAP as int),
{
    let mut acc: u128 = 0;
    let mut j: usize = 0;
    assert(d@.subrange(0, 0) =~= Seq::<u8>::empty());
    while j < n
        invariant
            0 <= j <= n <= d.len(),
            all_digits(d@, 10),
            acc == capped(digits_value(d@.subrange(0, j as int), 10), NS_CAP as int),
        decreases n - j,
    {
        let c = d[j];
        let ghost pre = d@.subrange(0, j as int);
        let ghost next = d@.subrange(0, j + 1);
        assert(next.drop_last() =~= pre);
        assert(digit_value(c, 10) >= 0);
        assert(all_digits(pre, 10)) by {
            assert forall|k: int| 0 <= k < pre.len() implies digit_value(#[trigger] pre[k], 10)
                >= 0 by {
                assert(pre[k] == d@[k]);
            }
        }
        proof {
            lemma_digits_value_nonneg(pre, 10);
        }
        let grown = acc * 10 + (c - 48) as u128;
        acc = if grown >= NS_CAP {
            NS_CAP
        } else {
            grown
        };
        j = j + 1;
    }
    acc
}

/// `10^(a+b) = 10^a · 10^b`.
pub proof fn lemma_pow10_adds(a: nat, b: nat)
    ensures
        pow10(a + b) == pow10(a) * pow10(b),
    decreases b,
{
    if b == 0 {
        assert(pow10(0) == 1);
        assert(a + b == a);
    } else {
        let b1 = (b - 1) as nat;
        lemma_pow10_adds(a, b1);
        assert(pow10(a + b) == 10 * pow10((a + b - 1) as nat));
        assert((a + b - 1) as nat == a + b1);
        assert(pow10(b) == 10 * pow10(b1));
        let x = pow10(a);
        let y = pow10(b1);
        assert(x * (10 * y) == 10 * (x * y)) by (nonlinear_arith);
    }
}

/// Ten to the power `10·n` is more than two to the power `33·n`.
proof fn lemma_pow10_over_p2(n: nat)
    ensures
        pow10(10 * n) >= p2(33 * n),
    decreases n,
{
    if n == 0 {
        assert(pow10(0) == 1);
        assert(p2(0) == 1);
    } else {
        lemma_pow10_over_p2((n - 1) as nat);
        lemma_pow10_adds(10 * (n - 1) as nat, 10);
        lemma_p2_adds(33 * (n - 1) as nat, 33);
        reveal_with_fuel(pow10, 11);
        reveal_with_fuel(p2, 34);
        assert(pow10(10) == 10_000_000_000);
        assert(p2(33) == 8_589_934_592);
        assert(10 * (n - 1) as nat + 10 == 10 * n);
        assert(33 * (n - 1) as nat + 33 == 33 * n);
        lemma_p2_pos(33 * (n - 1) as nat);
        let x = pow10(10 * (n - 1) as nat);
        let y = p2(33 * (n - 1) as nat);
        assert(x * 10_000_000_000 >= y * 8_589_934_592) by (nonlinear_arith)
            requires
                x >= y,
                y >= 1,
        ;
    }
}

/// Digits that are all `0` are worth nothing.
proof fn lemma_zeros_value(s: Seq<u8>)
    requires
        forall|j: int| 0 <= j < s.len() ==> s[j] == 48,
    ensures
        digits_value(s, 10) == 0,
    decreases s.len(),
{
    if s.len() > 0 {
        lemma_zeros_value(s.drop_last());
    }
}

/// Digits whose first non-zero digit stands at `z` lie between the powers of
/// ten of the number of digits from there on.
proof fn lemma_significant(s: Seq<u8>, z: int)
    requires
        all_digits(s, 10),
        0 <= z < s.len(),
        forall|j: int| 0 <= j < z ==> s[j] == 48,
        s[z] != 48,
    ensures
        pow10((s.len() - z - 1) as nat) <= digits_value(s, 10) < pow10((s.len() - z) as nat),
{
    let pre = s.subrange(0, z);
    let suf = s.subrange(z, s.len() as int);
    let rest = suf.drop_first();
    assert(s =~= pre + suf);
    lemma_digits_concat(pre, suf);
    lemma_zeros_value(pre);
    assert(suf =~= seq![s[z]] + rest);
    lemma_digits_concat(seq![s[z]], rest);
    let one = seq![s[z]];
    assert(one.drop_last() =~= Seq::<u8>::empty());
    assert(digits_value(Seq::<u8>::empty(), 10) == 0);
    assert(one.last() == s[z]);
    assert(digit_value(s[z], 10) >= 1);
    assert(all_digits(suf, 10)) by {
        assert forall|k: int| 0 <= k < suf.len() implies digit_value(#[trigger] suf[k], 10) >= 0 by {
            assert(suf[k] == s[z + k]);
        }
    }
    assert(all_digits(rest, 10)) by {
        assert forall|k: int| 0 <= k < rest.len() implies digit_value(#[trigger] rest[k], 10) >= 0 by {
            assert(rest[k] == s[z + 1 + k]);
        }
    }
    lemma_digits_value_bound(suf);
    lemma_digits_value_nonneg(rest, 10);
    let t = digit_value(s[z], 10);
    let w = pow10(rest.len());
    lemma_pow10_pos(rest.len());
    assert(t * w >= w) by (nonlinear_arith)
        requires
            t >= 1,
            w >= 1,
    ;
    assert(0 * pow10(suf.len()) == 0);
}

/// A decimal of at least `10^330` rounds to infinity.
proof fn lemma_decimal_huge(d: nat, len: nat, k: int)
    requires
        len >= 1,
        d >= pow10((len - 1) as nat),
        len - 1 + k >= 330,
    ensures
        decimal_ns(d, k) is None,
{
    reveal(decimal_ns);
    let kp: nat = if k >= 0 {
        k as nat
    } else {
        0
    };
    let kn: nat = if k < 0 {
        (-k) as nat
    } else {
        0
    };
    let p = (d * pow10(kp)) as nat;
    let q = pow10(kn) as nat;
    lemma_pow10_pos(kp);
    lemma_pow10_pos(kn);
    lemma_pow10_pos((len - 1) as nat);
    let big = (len - 1 + kp) as nat;
    lemma_pow10_adds((len - 1) as nat, kp);
    assert(d * pow10(kp) >= pow10((len - 1) as nat) * pow10(kp)) by (nonlinear_arith)
        requires
            d >= pow10((len - 1) as nat),
            pow10(kp) >= 1,
    ;
    let rest = (big - kn - 330) as nat;
    assert(big == kn + 330 + rest);
    lemma_pow10_adds(kn, 330 + rest);
    lemma_pow10_adds(330, rest);
    lemma_pow10_pos(rest);
    lemma_pow10_over_p2(33);
    lemma_p2_mono(1064, 1089);
    lemma_p2_adds(53, 1011);
    lemma_p2_pos(1011);
    let a = pow10(kn);
    let c = pow10(330);
    assert(10 * 33nat == 330nat);
    assert(33 * 33nat == 1089nat);
    assert(c >= p2(1089));
    lemma_p2_pos(1064);
    assert(c >= p2(1064));
    assert(pow10((len - 1) as nat) * pow10(kp) == pow10(big));
    assert(kn + (330 + rest) as nat == big);
    assert(pow10(big) == a * pow10((330 + rest) as nat));
    assert(pow10((330 + rest) as nat) == c * pow10(rest));
    assert(a * (c * pow10(rest)) >= a * p2(1064)) by (nonlinear_arith)
        requires
            a >= 1,
            c >= p2(1064),
            pow10(rest) >= 1,
    ;
    assert(p >= q * p2(1064)) by (nonlinear_arith)
        requires
            p >= pow10(big),
            pow10(big) == a * (c * pow10(rest)),
            a * (c * pow10(rest)) >= a * p2(1064),
            q == a,
    ;
    assert(q * p2(1064) == p2(53) * (q * p2(1011))) by (nonlinear_arith)
        requires
            p2(1064) == p2(53) * p2(1011),
    ;
    assert(den_at(q, -1011) == q * p2(1011));
    assert(num_at(p, -1011) == p);
    assert(q >= 1);
    assert(p >= 1) by (nonlinear_arith)
        requires
            p >= q * p2(1064),
            q >= 1,
            p2(1064) >= 1,
    ;
    lemma_bin_exp_overflow(p, q, -1011);
}

/// A decimal below `10^−340` rounds to zero.
proof fn lemma_decimal_tiny(d: nat, len: nat, k: int)
    requires
        d >= 1,
        d < pow10(len),
        len + k <= -340,
    ensures
        decimal_ns(d, k) == Some(0nat),
{
    reveal(decimal_ns);
    let kn = (-k) as nat;
    let q = pow10(kn) as nat;
    let rest = (kn - len - 340) as nat;
    lemma_pow10_adds(len, (340 + rest) as nat);
    lemma_pow10_adds(340, rest);
    lemma_pow10_pos(rest);
    lemma_pow10_pos(len);
    lemma_pow10_over_p2(34);
    lemma_p2_mono(1075, 1122);
    lemma_p2_adds(1074, 1);
    reveal_with_fuel(p2, 2);
    lemma_p2_values();
    assert(pow10(0) == 1);
    assert(d * pow10(0) == d);
    let c = pow10(340);
    let r = pow10(rest);
    let l = pow10(len);
    assert(10 * 34nat == 340nat);
    assert(34 * 33nat == 1122nat);
    assert(c >= p2(1122));
    assert(kn == len + (340 + rest) as nat);
    assert(pow10((340 + rest) as nat) == c * r);
    assert(q == l * (c * r));
    let cr = c * r;
    lemma_p2_pos(1075);
    assert(cr >= p2(1075)) by (nonlinear_arith)
        requires
            c >= p2(1122),
            p2(1122) >= p2(1075),
            r >= 1,
            cr == c * r,
    ;
    assert(l * cr >= (d + 1) * cr) by (nonlinear_arith)
        requires
            l >= d + 1,
            cr >= 0,
    ;
    assert((d + 1) * cr > d * p2(1075)) by (nonlinear_arith)
        requires
            cr >= p2(1075),
            p2(1075) >= 1,
            d >= 1,
    ;
    assert(q > d * p2(1075));
    let n = d * p2(1074);
    assert(d * p2(1075) == 2 * n) by (nonlinear_arith)
        requires
            p2(1075) == p2(1074) * 2,
            n == d * p2(1074),
    ;
    assert(num_at(d, 1074) == n);
    assert(den_at(q, 1074) == q);
    lemma_p2_pos(1074);
    assert(n >= 1) by (nonlinear_arith)
        requires
            d >= 1,
            p2(1074) >= 1,
            n == d * p2(1074),
    ;
    assert(n < p2(52) * q) by (nonlinear_arith)
        requires
            2 * n < q,
            p2(52) >= 1,
    ;
    lemma_bin_exp_subnormal(d, q);
    lemma_fundamental_div_mod_converse(n as int, q as int, 0, n as int);
    assert(round_even(n, q) == 0);
}

/// The value of digits as a number of limbs.
fn big_from_digits(d: &Vec<u8>) -> (r: Vec<u32>)
    requires
        all_digits(d@, 10),
    ensures
        big_val(r@) == digits_value(d@, 10),
{
    let mut acc = big_from(0);
    let mut i: usize = 0;
    assert(d@.subrange(0, 0) =~= Seq::<u8>::empty());
    while i < d.len()
        invariant
            i <= d.len(),
            all_digits(d@, 10),
            big_val(acc@) == digits_value(d@.subrange(0, i as int), 10),
        decreases d.len() - i,
    {
        let c = d[i];
        assert(digit_value(c, 10) >= 0);
        let ghost next = d@.subrange(0, i + 1);
        assert(next.drop_last() =~= d@.subrange(0, i as int));
        acc = big_mul_add(&acc, 10, (c - 48) as u64);
        i = i + 1;
    }
    assert(d@.subrange(0, i as int) =~= d@);
    acc
}

/// `(x * 1e9).round()` for `x = m · 2^e` with a binary64 significand of a
/// given size, up to the cap.
fn half_up_capped(m2: u64, e2: i32) -> (r: u128)
    requires
        m2 <= p2(53),
        -1074 <= e2 <= 971,
        e2 > -1074 ==> m2 >= p2(52),
    ensures
        r == capped(half_up(value_num(m2 as nat, e2 as int), value_den(e2 as int)) as int, NS_CAP as int),
{
    proof {
        lemma_p2_values();
    }
    if e2 >= 0 {
        proof {
            assert(value_den(e2 as int) == 1);
            let n = value_num(m2 as nat, e2 as int);
            lemma_fundamental_div_mod_converse((2 * n + 1) as int, 2, n as int, 1);
            assert(half_up(n, 1) == n);
        }
        if e2 >= 11 {
            proof {
                lemma_p2_mono(11, e2 as nat);
                reveal_with_fuel(p2, 12);
                assert(m2 * p2(e2 as nat) >= p2(52) * 2048) by (nonlinear_arith)
                    requires
                        m2 >= p2(52),
                        p2(e2 as nat) >= 2048,
                ;
            }
            return NS_CAP;
        }
        let mut n: u128 = m2 as u128;
        let mut i: i32 = 0;
        assert(p2(0) == 1);
        assert(m2 * p2(0) == m2);
        while i < e2
            invariant
                0 <= i <= e2 <= 10,
                m2 <= p2(53),
                p2(53) == 0x20_0000_0000_0000,
                n == m2 * p2(i as nat),
            decreases e2 - i,
        {
            proof {
                lemma_p2_mono(i as nat, 10);
                reveal_with_fuel(p2, 11);
                assert(m2 * p2(i as nat) <= 0x20_0000_0000_0000 * 1024) by (nonlinear_arith)
                    requires
                        m2 <= 0x20_0000_0000_0000,
                        p2(i as nat) <= 1024,
                ;
                assert(p2((i + 1) as nat) == 2 * p2(i as nat));
                assert(m2 * (2 * p2(i as nat)) == 2 * (m2 * p2(i as nat))) by (nonlinear_arith);
            }
            n = n * 2;
            i = i + 1;
        }
        if n >= NS_CAP {
            NS_CAP
        } else {
            n
        }
    } else {
        let s2: i32 = -e2;
        proof {
            assert(value_num(m2 as nat, e2 as int) == m2);
            assert(value_den(e2 as int) == p2(s2 as nat));
        }
        if s2 > 60 {
            proof {
                lemma_p2_mono(61, s2 as nat);
                reveal_with_fuel(p2, 62);
                let d = p2(s2 as nat);
                lemma_fundamental_div_mod_converse((2 * m2 + d) as int, (2 * d) as int, 0, (2 * m2 + d) as int);
            }
            return 0;
        }
        let mut d: u128 = 1;
        let mut i: i32 = 0;
        assert(p2(0) == 1);
        while i < s2
            invariant
                0 <= i <= s2 <= 60,
                d == p2(i as nat),
            decreases s2 - i,
        {
            proof {
                lemma_p2_mono(i as nat, 60);
                reveal_with_fuel(p2, 61);
                assert(p2((i + 1) as nat) == 2 * p2(i as nat));
            }
            d = d * 2;
            i = i + 1;
        }
        proof {
            lemma_p2_mono(s2 as nat, 60);
            reveal_with_fuel(p2, 61);
            lemma_p2_pos(s2 as nat);
        }
        let v: u128 = (2 * (m2 as u128) + d) / (2 * d);
        proof {
            assert(v <= 2 * m2 + d);
        }
        if v >= NS_CAP {
            NS_CAP
        } else {
            v
        }
    }
}

/// `(x * 1e9).round()` for the positive binary64 value `x = m · 2^e`, up to
/// the cap; `None` where the product is infinite.
fn seconds_to_ns(m: u64, e: i32) -> (r: Option<u128>)
    requires
        1 <= m <= p2(53),
        -1074 <= e <= 971,
    ensures
        match ns_of_seconds(m as nat, e as int) {
            None => r is None,
            Some(x) => r == Some(capped(x as int, NS_CAP as int) as u128),
        },
{
    let mv = big_from(m);
    let one = big_from(1);
    let num = if e >= 0 {
        big_mul_p2(&mv, e as u32)
    } else {
        big_mul_add(&mv, 1, 0)
    };
    let num9 = big_mul_add(&num, 1_000_000_000, 0);
    let den = if e >= 0 {
        big_mul_add(&one, 1, 0)
    } else {
        big_mul_p2(&one, (-e) as u32)
    };
    proof {
        assert(big_val(num@) == value_num(m as nat, e as int));
        assert(big_val(den@) == value_den(e as int));
        if e >= 0 {
            lemma_p2_pos(e as nat);
            assert(m * p2(e as nat) >= 1) by (nonlinear_arith)
                requires
                    m >= 1,
                    p2(e as nat) >= 1,
            ;
        } else {
            lemma_p2_pos((-e) as nat);
        }
        assert(big_val(num9@) >= 1);
    }
    match nearest_big(&num9, &den) {
        None => None,
        Some((m2, e2)) => Some(half_up_capped(m2, e2)),
    }
}

/// `(x * 1e9).round()` for `x` the binary64 value nearest `digits ·
/// 10^(e − f)`, up to the cap; `None` where it is infinite. The exponent `e`
/// is given by its sign and its size up to the cap.
fn decimal_ns_capped(d: &Vec<u8>, f: usize, neg: bool, mag: u128, Ghost(e): Ghost<int>) -> (r: Option<u128>)
    requires
        all_digits(d@, 10),
        f <= d.len(),
        mag <= EXP_CAP,
        mag < EXP_CAP ==> e == if neg {
            -mag
        } else {
            mag as int
        },
        mag == EXP_CAP ==> if neg {
            e <= -(EXP_CAP as int)
        } else {
            e >= EXP_CAP
        },
    ensures
        match decimal_ns(digits_value(d@, 10) as nat, e - f) {
            None => r is None,
            Some(x) => r == Some(capped(x as int, NS_CAP as int) as u128),
        },
{
    reveal(decimal_ns);
    let ghost dv = digits_value(d@, 10);
    let ghost k = e - f;
    let len = d.len();
    assert(d@.subrange(0, len as int) =~= d@);
    let dc = capped_value(d, len);
    proof {
        lemma_digits_value_nonneg(d@, 10);
    }
    if dc == 0 {
        assert(dv == 0);
        return Some(0);
    }
    let mut z: usize = 0;
    while z < len && d[z] == 48
        invariant
            z <= len == d.len(),
            forall|j: int| 0 <= j < z ==> d@[j] == 48,
        decreases len - z,
    {
        z = z + 1;
    }
    if z == len {
        proof {
            lemma_zeros_value(d@);
        }
        assert(false);
        return Some(0);
    }
    let sig: usize = len - z;
    proof {
        lemma_significant(d@, z as int);
    }
    if mag == EXP_CAP {
        if neg {
            proof {
                lemma_decimal_tiny(dv as nat, sig as nat, k);
            }
            return Some(0);
        } else {
            proof {
                lemma_decimal_huge(dv as nat, sig as nat, k);
            }
            return None;
        }
    }
    let ev: i128 = if neg {
        -(mag as i128)
    } else {
        mag as i128
    };
    let kk: i128 = ev - f as i128;
    assert(kk == k);
    if sig as i128 - 1 + kk >= 330 {
        proof {
            lemma_decimal_huge(dv as nat, sig as nat, k);
        }
        return None;
    }
    if sig as i128 + kk <= -340 {
        proof {
            lemma_decimal_tiny(dv as nat, sig as nat, k);
        }
        return Some(0);
    }
    let dbig = big_from_digits(d);
    let one = big_from(1);
    let p = if kk >= 0 {
        big_mul_pow10(&dbig, kk as u128)
    } else {
        big_mul_add(&dbig, 1, 0)
    };
    let q = if kk >= 0 {
        big_mul_add(&one, 1, 0)
    } else {
        big_mul_pow10(&one, (-kk) as u128)
    };
    proof {
        assert(pow10(0) == 1);
        lemma_pow10_pos(if kk >= 0 { kk as nat } else { (-kk) as nat });
        assert(big_val(p@) == (dv * pow10(if k >= 0 { k as nat } else { 0 })) as nat);
        assert(big_val(q@) == pow10(if k < 0 { (-k) as nat } else { 0 }) as nat);
        assert(big_val(p@) >= 1) by (nonlinear_arith)
            requires
                big_val(p@) == dv * pow10(if k >= 0 { k as nat } else { 0 }),
                dv >= 1,
                pow10(if k >= 0 { k as nat } else { 0 }) >= 1,
        ;
    }
    match nearest_big(&p, &q) {
        None => None,
        Some((m, e1)) => {
            if m == 0 {
                Some(0)
            } else {
                seconds_to_ns(m, e1)
            }
        },
    }
}

/// Reads a timestamp in seconds as nanoseconds.
pub fn parse_timestamp_ns(token: &[u8]) -> (r: Option<i64>)
    ensures
        r == spec_timestamp_ns(token@),
{
    let len = token.len();
    let negative = len > 0 && token[0] == 45;
    let start: usize = if len > 0 && (token[0] == 43 || token[0] == 45) {
        1
    } else {
        0
    };
    let mut body: Vec<u8> = Vec::new();
    let mut i: usize = start;
    while i < len
        invariant
            start <= i <= len == token.len(),
            body@ == token@.subrange(start as int, i as int),
        decreases len - i,
    {
        body.push(token[i]);
        i = i + 1;
        assert(body@ =~= token@.subrange(start as int, i as int));
    }
    assert(body@ =~= signed_body(token@));
    let b = body.as_slice();
    if spells_word(b, &inf_bytes()) || spells_word(b, &infinity_bytes()) {
        return Some(
            if negative {
                i64::MIN
            } else {
                i64::MAX
            },
        );
    }
    if spells_word(b, &nan_bytes()) {
        return Some(0);
    }
    let at = find_exp(b);
    proof {
        lemma_exp_index(b@);
    }
    let (digits, f) = match mantissa_digits(b, at) {
        Some(x) => x,
        None => return None,
    };
    if digits.len() == 0 {
        return None;
    }
    let (eneg, mag) = match exponent_capped(b, at) {
        Some(x) => x,
        None => return None,
    };
    let ghost e = exponent_value(b@).unwrap();
    let rc = decimal_ns_capped(&digits, f, eneg, mag, Ghost(e));
    match rc {
        None => Some(
            if negative {
                i64::MIN
            } else {
                i64::MAX
            },
        ),
        Some(c) => {
            if negative {
                if c >= NS_CAP {
                    Some(i64::MIN)
                } else {
                    Some(-(c as i64))
                }
            } else if c >= NS_CAP {
                Some(i64::MAX)
            } else {
                Some(c as i64)
            }
        },
    }
}

} // verus!
