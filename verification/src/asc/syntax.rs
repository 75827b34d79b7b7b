//! The lexical level of ASC lines: the error type, whitespace, tokens,
//! numbers and timestamps.
use vstd::prelude::*;
use vstd::string::StringExecFns;
use vstd::utf8::{decode_utf8, valid_utf8};

use crate::external::{debug_quoted, debug_quoted_text, io_error_text, string_from_utf8_lossy, utf8_lossy};

verus! {

/// Error returned when an ASC line cannot be parsed.
#[derive(Debug)]
pub enum AscParseError {
    /// Input/output error while reading the source (a line that is not UTF-8).
    Io(std::io::Error),
    /// A field was missing from a record.
    MissingField(&'static str),
    /// A field had an invalid value.
    InvalidField {
        /// Field name.
        field: &'static str,
        /// Field value.
        value: String,
    },
}

/// What went wrong, as the contracts speak of it.
pub ghost enum AscFault {
    /// An `Io` error.
    Io,
    /// `MissingField` with this field name.
    Missing(Seq<char>),
    /// `InvalidField` with this field name, for the token with these bytes.
    Invalid(Seq<char>, Seq<u8>),
}

/// The text of some bytes as a lossy UTF-8 conversion gives it: valid
/// UTF-8 decoded as it stands.
pub open spec fn text_of(b: Seq<u8>) -> Seq<char> {
    if valid_utf8(b) {
        decode_utf8(b)
    } else {
        utf8_lossy(b)
    }
}

/// Whether an error is the one a fault describes.
pub open spec fn is_asc_fault(e: AscParseError, f: AscFault) -> bool {
    match f {
        AscFault::Io => e is Io,
        AscFault::Missing(field) => e matches AscParseError::MissingField(fd) && fd@ == field,
        AscFault::Invalid(field, token) => e matches AscParseError::InvalidField { field: fd, value }
            && fd@ == field && value@ == text_of(token),
    }
}

/// Whether an exec result is the one a spec result describes.
pub open spec fn asc_agrees<T>(r: Result<T, AscParseError>, s: Result<T, AscFault>) -> bool {
    match (r, s) {
        (Ok(a), Ok(b)) => a == b,
        (Err(e), Err(f)) => is_asc_fault(e, f),
        _ => false,
    }
}

impl AscParseError {
    /// The error as user-visible text.
    pub fn message(&self) -> (s: String)
        ensures
            self matches AscParseError::MissingField(field) ==> s@ == "ASC record is missing "@
                + field@,
            self matches AscParseError::InvalidField { field, value } ==> s@ == "ASC field "@
                + field@ + " has invalid value "@ + debug_quoted(value@),
            self is Io ==> s@.len() >= 15 && s@.subrange(0, 15) == "ASC I/O error: "@,
    {
        match self {
            AscParseError::Io(error) => {
                let text = io_error_text(error);
                proof {
                    reveal_strlit("ASC I/O error: ");
                }
                String::from_str("ASC I/O error: ").concat(text.as_str())
            },
            AscParseError::MissingField(field) => String::from_str("ASC record is missing ").concat(field),
            AscParseError::InvalidField { field, value } => {
                let quoted = debug_quoted_text(value.as_str());
                String::from_str("ASC field ").concat(field).concat(" has invalid value ").concat(
                    quoted.as_str(),
                )
            },
        }
    }
}

impl From<std::io::Error> for AscParseError {
    fn from(error: std::io::Error) -> (e: Self) {
        AscParseError::Io(error)
    }
}

impl vstd::std_specs::convert::FromSpecImpl<std::io::Error> for AscParseError {
    open spec fn obeys_from_spec() -> bool {
        true
    }

    open spec fn from_spec(error: std::io::Error) -> Self {
        AscParseError::Io(error)
    }
}

/// An invalid-field error for a token.
pub fn invalid_token(field: &'static str, token: &[u8]) -> (e: AscParseError)
    ensures
        is_asc_fault(e, AscFault::Invalid(field@, token@)),
{
    AscParseError::InvalidField { field, value: string_from_utf8_lossy(token) }
}

/// The length of the UTF-8 encoded whitespace character (Unicode
/// `White_Space`) that starts at `i`, or 0.
pub open spec fn ws_len(b: Seq<u8>, i: int) -> int {
    if i < 0 || i >= b.len() {
        0
    } else {
        let c = b[i];
        if (9 <= c && c <= 13) || c == 32 {
            1
        } else if c == 0xC2 && i + 1 < b.len() && (b[i + 1] == 0x85 || b[i + 1] == 0xA0) {
            2
        } else if c == 0xE1 && i + 2 < b.len() && b[i + 1] == 0x9A && b[i + 2] == 0x80 {
            3
        } else if c == 0xE2 && i + 2 < b.len() && ((b[i + 1] == 0x80 && ((0x80 <= b[i + 2]
            && b[i + 2] <= 0x8A) || b[i + 2] == 0xA8 || b[i + 2] == 0xA9 || b[i + 2] == 0xAF)) || (
        b[i + 1] == 0x81 && b[i + 2] == 0x9F)) {
            3
        } else if c == 0xE3 && i + 2 < b.len() && b[i + 1] == 0x80 && b[i + 2] == 0x80 {
            3
        } else {
            0
        }
    }
}

/// The length of the whitespace character at `i`, or 0.
pub fn whitespace_len(b: &[u8], i: usize) -> (n: usize)
    ensures
        n == ws_len(b@, i as int),
{
    let len = b.len();
    if i >= len {
        return 0;
    }
    let c = b[i];
    if (9 <= c && c <= 13) || c == 32 {
        1
    } else if c == 0xC2 && len - i > 1 && (b[i + 1] == 0x85 || b[i + 1] == 0xA0) {
        2
    } else if c == 0xE1 && len - i > 2 && b[i + 1] == 0x9A && b[i + 2] == 0x80 {
        3
    } else if c == 0xE2 && len - i > 2 && ((b[i + 1] == 0x80 && ((0x80 <= b[i + 2] && b[i + 2]
        <= 0x8A) || b[i + 2] == 0xA8 || b[i + 2] == 0xA9 || b[i + 2] == 0xAF)) || (b[i + 1] == 0x81
        && b[i + 2] == 0x9F)) {
        3
    } else if c == 0xE3 && len - i > 2 && b[i + 1] == 0x80 && b[i + 2] == 0x80 {
        3
    } else {
        0
    }
}

/// The first position from `i` on that does not start whitespace.
pub open spec fn skip_ws(b: Seq<u8>, i: int) -> int
    decreases b.len() - i,
{
    if i < 0 || i >= b.len() || ws_len(b, i) == 0 {
        i
    } else {
        skip_ws(b, i + ws_len(b, i))
    }
}

/// The first position from `i` on that starts whitespace, or the end.
pub open spec fn token_end(b: Seq<u8>, i: int) -> int
    decreases b.len() - i,
{
    if i < 0 || i >= b.len() || ws_len(b, i) > 0 {
        i
    } else {
        token_end(b, i + 1)
    }
}

pub proof fn lemma_skip_ws(b: Seq<u8>, i: int)
    ensures
        i <= skip_ws(b, i),
        0 <= i ==> skip_ws(b, i) <= b.len() || skip_ws(b, i) == i,
        0 <= i < b.len() ==> skip_ws(b, i) <= b.len(),
        skip_ws(b, i) < b.len() && 0 <= i ==> ws_len(b, skip_ws(b, i)) == 0,
    decreases b.len() - i,
{
    if !(i < 0 || i >= b.len() || ws_len(b, i) == 0) {
        lemma_skip_ws(b, i + ws_len(b, i));
    }
}

pub proof fn lemma_token_end(b: Seq<u8>, i: int)
    ensures
        i <= token_end(b, i),
        0 <= i <= b.len() ==> token_end(b, i) <= b.len(),
        0 <= i < b.len() && ws_len(b, i) == 0 ==> i < token_end(b, i),
        forall|k: int| i <= k < token_end(b, i) ==> ws_len(b, k) == 0,
    decreases b.len() - i,
{
    if !(i < 0 || i >= b.len() || ws_len(b, i) > 0) {
        lemma_token_end(b, i + 1);
    }
}

/// The ranges of the whitespace-separated tokens from `i` on.
pub open spec fn token_ranges(b: Seq<u8>, i: int) -> Seq<(int, int)>
    decreases b.len() - i,
{
    if i < 0 {
        Seq::empty()
    } else {
        let s = skip_ws(b, i);
        if s >= b.len() {
            Seq::empty()
        } else {
            proof {
                lemma_skip_ws(b, i);
                lemma_token_end(b, s);
            }
            seq![(s, token_end(b, s))] + token_ranges(b, token_end(b, s))
        }
    }
}

/// The whitespace-separated tokens of a line, as `split_whitespace` yields them.
pub open spec fn tokens(b: Seq<u8>) -> Seq<Seq<u8>> {
    token_ranges(b, 0).map_values(|r: (int, int)| b.subrange(r.0, r.1))
}

/// The line without leading and trailing whitespace, as `trim` yields it.
pub open spec fn trimmed(b: Seq<u8>) -> Seq<u8> {
    let r = token_ranges(b, 0);
    if r.len() == 0 {
        Seq::empty()
    } else {
        b.subrange(r[0].0, r.last().1)
    }
}

/// Token ranges lie in order within the data.
pub proof fn lemma_token_ranges(b: Seq<u8>, i: int)
    requires
        0 <= i <= b.len(),
    ensures
        forall|k: int|
            0 <= k < token_ranges(b, i).len() ==> i <= (#[trigger] token_ranges(b, i)[k]).0 < token_ranges(
                b,
                i,
            )[k].1 <= b.len(),
        forall|k: int, l: int|
            0 <= k < l < token_ranges(b, i).len() ==> (#[trigger] token_ranges(b, i)[k]).1 <= (
            #[trigger] token_ranges(b, i)[l]).0,
    decreases b.len() - i,
{
    let s = skip_ws(b, i);
    lemma_skip_ws(b, i);
    if s < b.len() {
        lemma_token_end(b, s);
        let e = token_end(b, s);
        lemma_token_ranges(b, e);
        let r = token_ranges(b, i);
        let rest = token_ranges(b, e);
        assert(r == seq![(s, e)] + rest);
        assert forall|k: int| 0 <= k < r.len() implies i <= (#[trigger] r[k]).0 < r[k].1 <= b.len() by {
            if k > 0 {
                assert(r[k] == rest[k - 1]);
            }
        }
        assert forall|k: int, l: int| 0 <= k < l < r.len() implies (#[trigger] r[k]).1 <= (
        #[trigger] r[l]).0 by {
            assert(r[l] == rest[l - 1]);
            if k > 0 {
                assert(r[k] == rest[k - 1]);
            }
        }
    }
}

/// The bytes of a list of token slices.
pub open spec fn views(v: Seq<&[u8]>) -> Seq<Seq<u8>> {
    v.map_values(|t: &[u8]| t@)
}

/// Splits a line into its whitespace-separated tokens, and finds where the
/// trimmed line starts and ends.
pub fn split_tokens(b: &[u8]) -> (r: (Vec<&[u8]>, usize, usize))
    ensures
        views(r.0@) == tokens(b@),
        r.1 <= r.2 <= b@.len(),
        b@.subrange(r.1 as int, r.2 as int) == trimmed(b@),
{
    let ghost d = b@;
    let len = b.len();
    let mut v: Vec<&[u8]> = Vec::new();
    let mut i: usize = 0;
    let mut first: usize = 0;
    let mut last: usize = 0;
    proof {
        lemma_token_ranges(d, 0);
    }
    while i < len
        invariant
            d == b@,
            len == d.len(),
            i <= len,
            token_ranges(d, 0) == token_ranges(d, 0).subrange(0, v@.len() as int) + token_ranges(
                d,
                i as int,
            ),
            v@.len() <= token_ranges(d, 0).len(),
            forall|k: int|
                0 <= k < v@.len() ==> (#[trigger] v@[k])@ == d.subrange(
                    token_ranges(d, 0)[k].0,
                    token_ranges(d, 0)[k].1,
                ),
            v@.len() == 0 ==> first == 0 && last == 0,
            v@.len() > 0 ==> first == token_ranges(d, 0)[0].0,
            v@.len() > 0 ==> last == token_ranges(d, 0)[v@.len() - 1].1,
            v@.len() > 0 ==> last <= i,
            forall|k: int|
                0 <= k < token_ranges(d, 0).len() ==> 0 <= (#[trigger] token_ranges(d, 0)[k]).0 < token_ranges(
                    d,
                    0,
                )[k].1 <= d.len(),
        decreases len - i,
    {
        let ghost start_i = i as int;
        let ghost rest = token_ranges(d, i as int);
        while i < len && whitespace_len(b, i) > 0
            invariant
                d == b@,
                len == d.len(),
                start_i <= i <= len,
                skip_ws(d, start_i) == skip_ws(d, i as int),
            decreases len - i,
        {
            i = i + whitespace_len(b, i);
        }
        proof {
            lemma_skip_ws(d, start_i);
        }
        if i < len {
            let start = i;
            proof {
                lemma_token_end(d, start as int);
            }
            while i < len && whitespace_len(b, i) == 0
                invariant
                    d == b@,
                    len == d.len(),
                    start <= i <= len,
                    token_end(d, start as int) == token_end(d, i as int),
                decreases len - i,
            {
                i = i + 1;
            }
            let ghost k = v@.len() as int;
            if v.len() == 0 {
                first = start;
            }
            last = i;
            v.push(&b[start..i]);
            proof {
                assert(rest == seq![(start as int, i as int)] + token_ranges(d, i as int));
                let all = token_ranges(d, 0);
                assert(all =~= all.subrange(0, k + 1) + token_ranges(d, i as int));
                assert(all[k] == (start as int, i as int));
            }
        } else {
            proof {
                assert(rest =~= Seq::<(int, int)>::empty());
                assert(token_ranges(d, i as int) =~= Seq::<(int, int)>::empty());
            }
        }
    }
    proof {
        let all = token_ranges(d, 0);
        assert(token_ranges(d, i as int) =~= Seq::<(int, int)>::empty());
        assert(all.subrange(0, v@.len() as int) + Seq::<(int, int)>::empty() =~= all.subrange(
            0,
            v@.len() as int,
        ));
        assert(all.subrange(0, v@.len() as int) =~= all);
        assert(views(v@) =~= tokens(d));
        lemma_token_ranges(d, 0);
        if v@.len() == 0 {
            assert(d.subrange(0, 0) =~= Seq::<u8>::empty());
        } else {
            let n = v@.len() - 1;
            assert(all.len() == v@.len());
            assert(first == all[0].0);
            assert(last == all[n].1);
            assert(all.last() == all[n]);
            assert(all[0].0 < all[0].1);
            if n > 0 {
                assert(all[0].1 <= all[n].0);
            }
            assert(all[n].0 < all[n].1);
        }
    }
    (v, first, last)
}

/// The value of a digit in radix 10 or 16 (either case), or -1.
pub open spec fn digit_value(c: u8, radix: int) -> int {
    if 48 <= c && c <= 57 {
        c - 48
    } else if radix == 16 && 97 <= c && c <= 102 {
        c - 87
    } else if radix == 16 && 65 <= c && c <= 70 {
        c - 55
    } else {
        -1
    }
}

/// Every byte is a digit of the radix.
pub open spec fn all_digits(s: Seq<u8>, radix: int) -> bool {
    forall|i: int| 0 <= i < s.len() ==> digit_value(#[trigger] s[i], radix) >= 0
}

/// The value of a digit string, most significant digit first.
pub open spec fn digits_value(s: Seq<u8>, radix: int) -> int
    decreases s.len(),
{
    if s.len() == 0 {
        0
    } else {
        digits_value(s.drop_last(), radix) * radix + digit_value(s.last(), radix)
    }
}

/// A digit string is worth at least any of its prefixes.
pub proof fn lemma_digits_value_prefix(s: Seq<u8>, radix: int, i: int)
    requires
        radix == 10 || radix == 16,
        all_digits(s, radix),
        0 <= i <= s.len(),
    ensures
        digits_value(s.subrange(0, i), radix) <= digits_value(s, radix),
        0 <= digits_value(s.subrange(0, i), radix),
    decreases s.len(),
{
    if i == s.len() {
        assert(s.subrange(0, i) =~= s);
        lemma_digits_value_nonneg(s, radix);
    } else {
        assert(s.drop_last().subrange(0, i) =~= s.subrange(0, i));
        lemma_digits_value_prefix(s.drop_last(), radix, i);
        lemma_digits_value_nonneg(s.drop_last(), radix);
        assert(digits_value(s.drop_last(), radix) <= digits_value(s.drop_last(), radix) * radix) by (
        nonlinear_arith)
            requires
                digits_value(s.drop_last(), radix) >= 0,
                radix >= 1,
        ;
    }
}

/// A digit string has a value of at least zero.
pub proof fn lemma_digits_value_nonneg(s: Seq<u8>, radix: int)
    requires
        radix == 10 || radix == 16,
        all_digits(s, radix),
    ensures
        0 <= digits_value(s, radix),
    decreases s.len(),
{
    if s.len() > 0 {
        lemma_digits_value_nonneg(s.drop_last(), radix);
        assert(0 <= digits_value(s.drop_last(), radix) * radix) by (nonlinear_arith)
            requires
                digits_value(s.drop_last(), radix) >= 0,
                radix >= 1,
        ;
    }
}

/// The digits of an unsigned number: the token without one leading `+`.
pub open spec fn unsigned_body(token: Seq<u8>) -> Seq<u8> {
    if token.len() > 0 && token[0] == 43 {
        token.drop_first()
    } else {
        token
    }
}

/// An unsigned integer in radix 10 or 16 as `from_str_radix` reads it: an
/// optional `+`, then at least one digit; `None` above `max`.
pub open spec fn spec_parse_unsigned(token: Seq<u8>, radix: int, max: int) -> Option<int> {
    let body = unsigned_body(token);
    if body.len() > 0 && all_digits(body, radix) && digits_value(body, radix) <= max {
        Some(digits_value(body, radix))
    } else {
        None
    }
}

/// Reads an unsigned integer in radix 10 or 16 no larger than `max`.
pub fn parse_unsigned(token: &[u8], radix: u64, max: u64) -> (r: Option<u64>)
    requires
        radix == 10 || radix == 16,
    ensures
        r matches Some(v) ==> spec_parse_unsigned(token@, radix as int, max as int) == Some(v as int),
        r is None ==> spec_parse_unsigned(token@, radix as int, max as int) is None,
{
    let ghost body = unsigned_body(token@);
    let start: usize = if token.len() > 0 && token[0] == 43 { 1 } else { 0 };
    let len = token.len();
    if len == start {
        return None;
    }
    assert(body =~= token@.subrange(start as int, len as int));
    let mut v: u64 = 0;
    let mut i: usize = start;
    while i < len
        invariant
            start <= i <= len,
            len == token@.len(),
            body == unsigned_body(token@),
            body == token@.subrange(start as int, len as int),
            radix == 10 || radix == 16,
            all_digits(body.subrange(0, i - start), radix as int),
            v == digits_value(body.subrange(0, i - start), radix as int),
            v <= max,
        decreases len - i,
    {
        let c = token[i];
        let d: u64 = if 48 <= c && c <= 57 {
            (c - 48) as u64
        } else if radix == 16 && 97 <= c && c <= 102 {
            (c - 87) as u64
        } else if radix == 16 && 65 <= c && c <= 70 {
            (c - 55) as u64
        } else {
            assert(!all_digits(body, radix as int)) by {
                assert(body[i - start] == c);
            }
            return None;
        };
        let ghost pre = body.subrange(0, i - start);
        let ghost next = body.subrange(0, i - start + 1);
        assert(next.drop_last() =~= pre);
        assert(next.last() == c);
        assert(digits_value(next, radix as int) == v * radix + d);
        let next_v = match v.checked_mul(radix) {
            Some(m) => m.checked_add(d),
            None => None,
        };
        match next_v {
            Some(n) => {
                if n > max {
                    proof {
                        if all_digits(body, radix as int) {
                            lemma_digits_value_prefix(body, radix as int, i - start + 1);
                        }
                    }
                    return None;
                }
                v = n;
            },
            None => {
                proof {
                    if all_digits(body, radix as int) {
                        lemma_digits_value_prefix(body, radix as int, i - start + 1);
                    }
                }
                return None;
            },
        }
        i = i + 1;
        assert(all_digits(body.subrange(0, i - start), radix as int)) by {
            assert forall|k: int| 0 <= k < next.len() implies digit_value(#[trigger] next[k], radix as int)
                >= 0 by {
                if k < pre.len() {
                    assert(next[k] == pre[k]);
                }
            }
        }
    }
    assert(body.subrange(0, len - start) =~= body);
    Some(v)
}

/// Reads a hexadecimal byte; `InvalidField(field)` otherwise.
pub fn parse_hex_byte(field: &'static str, token: &[u8]) -> (r: Result<u8, AscParseError>)
    ensures
        match r {
            Ok(v) => spec_parse_unsigned(token@, 16, 255) == Some(v as int),
            Err(e) => spec_parse_unsigned(token@, 16, 255) is None && is_asc_fault(
                e,
                AscFault::Invalid(field@, token@),
            ),
        },
{
    match parse_unsigned(token, 16, 255) {
        Some(v) => Ok(v as u8),
        None => Err(invalid_token(field, token)),
    }
}

/// Reads a decimal byte; `InvalidField(field)` otherwise.
pub fn parse_decimal_u8(field: &'static str, token: &[u8]) -> (r: Result<u8, AscParseError>)
    ensures
        match r {
            Ok(v) => spec_parse_unsigned(token@, 10, 255) == Some(v as int),
            Err(e) => spec_parse_unsigned(token@, 10, 255) is None && is_asc_fault(
                e,
                AscFault::Invalid(field@, token@),
            ),
        },
{
    match parse_unsigned(token, 10, 255) {
        Some(v) => Ok(v as u8),
        None => Err(invalid_token(field, token)),
    }
}

/// Reads a decimal 16-bit number; `InvalidField(field)` otherwise.
pub fn parse_decimal_u16(field: &'static str, token: &[u8]) -> (r: Result<u16, AscParseError>)
    ensures
        match r {
            Ok(v) => spec_parse_unsigned(token@, 10, 65535) == Some(v as int),
            Err(e) => spec_parse_unsigned(token@, 10, 65535) is None && is_asc_fault(
                e,
                AscFault::Invalid(field@, token@),
            ),
        },
{
    match parse_unsigned(token, 10, 65535) {
        Some(v) => Ok(v as u16),
        None => Err(invalid_token(field, token)),
    }
}

/// Reads a decimal length; `InvalidField(field)` for the token `shown`
/// otherwise.
pub fn parse_decimal_usize(field: &'static str, token: &[u8], shown: &[u8]) -> (r: Result<usize, AscParseError>)
    ensures
        match r {
            Ok(v) => spec_parse_unsigned(token@, 10, usize::MAX as int) == Some(v as int),
            Err(e) => spec_parse_unsigned(token@, 10, usize::MAX as int) is None && is_asc_fault(
                e,
                AscFault::Invalid(field@, shown@),
            ),
        },
{
    match parse_unsigned(token, 10, usize::MAX as u64) {
        Some(v) => Ok(v as usize),
        None => Err(invalid_token(field, shown)),
    }
}

/// The token without its trailing `x` and `X` characters.
pub open spec fn trim_x(token: Seq<u8>) -> Seq<u8>
    decreases token.len(),
{
    if token.len() > 0 && (token.last() == 120 || token.last() == 88) {
        trim_x(token.drop_last())
    } else {
        token
    }
}

/// A hexadecimal identifier, extended when it ends with `x` or `X` (all
/// trailing `x` and `X` characters are dropped before the digits are read).
pub open spec fn spec_parse_hex_id(token: Seq<u8>) -> Option<(u32, bool)> {
    let extended = token.len() > 0 && (token.last() == 120 || token.last() == 88);
    match spec_parse_unsigned(trim_x(token), 16, u32::MAX as int) {
        Some(v) => Some((v as u32, extended)),
        None => None,
    }
}

/// Reads a hexadecimal identifier with its extended marker.
pub fn parse_hex_u32(field: &'static str, token: &[u8]) -> (r: Result<(u32, bool), AscParseError>)
    ensures
        asc_agrees(
            r,
            match spec_parse_hex_id(token@) {
                Some(v) => Ok(v),
                None => Err(AscFault::Invalid(field@, token@)),
            },
        ),
{
    let len = token.len();
    let extended = len > 0 && (token[len - 1] == 120 || token[len - 1] == 88);
    let mut end = len;
    assert(token@.subrange(0, len as int) =~= token@);
    while end > 0 && (token[end - 1] == 120 || token[end - 1] == 88)
        invariant
            end <= len,
            len == token@.len(),
            trim_x(token@) == trim_x(token@.subrange(0, end as int)),
        decreases end,
    {
        assert(token@.subrange(0, end as int).drop_last() =~= token@.subrange(0, end - 1));
        end = end - 1;
    }
    assert(trim_x(token@.subrange(0, end as int)) == token@.subrange(0, end as int));
    assert(token@.subrange(0, len as int) =~= token@);
    match parse_unsigned(&token[0..end], 16, u32::MAX as u64) {
        Some(v) => Ok((v as u32, extended)),
        None => Err(invalid_token(field, token)),
    }
}

/// The direction named by a token.
pub open spec fn spec_parse_direction(token: Seq<u8>) -> Option<crate::event::Direction> {
    if token == seq![82u8, 120u8] {
        Some(crate::event::Direction::Rx)
    } else if token == seq![84u8, 120u8] {
        Some(crate::event::Direction::Tx)
    } else {
        None
    }
}

/// Reads `Rx` or `Tx`; `InvalidField("direction")` otherwise.
pub fn parse_direction(token: &[u8]) -> (r: Result<crate::event::Direction, AscParseError>)
    ensures
        asc_agrees(
            r,
            match spec_parse_direction(token@) {
                Some(d) => Ok(d),
                None => Err(AscFault::Invalid("direction"@, token@)),
            },
        ),
{
    if token.len() == 2 && token[0] == 82 && token[1] == 120 {
        assert(token@ =~= seq![82u8, 120u8]);
        Ok(crate::event::Direction::Rx)
    } else if token.len() == 2 && token[0] == 84 && token[1] == 120 {
        assert(token@ =~= seq![84u8, 120u8]);
        Ok(crate::event::Direction::Tx)
    } else {
        proof {
            reveal_strlit("direction");
        }
        Err(invalid_token("direction", token))
    }
}

/// The token after its sign.
pub open spec fn signed_body(token: Seq<u8>) -> Seq<u8> {
    if token.len() > 0 && (token[0] == 43 || token[0] == 45) {
        token.drop_first()
    } else {
        token
    }
}

/// The position of the first `.`, or the length.
pub open spec fn dot_index(s: Seq<u8>) -> int
    decreases s.len(),
{
    if s.len() == 0 {
        0
    } else if s[0] == 46 {
        0
    } else {
        1 + dot_index(s.drop_first())
    }
}

pub proof fn lemma_dot_index(s: Seq<u8>)
    ensures
        0 <= dot_index(s) <= s.len(),
        dot_index(s) < s.len() ==> s[dot_index(s)] == 46,
        forall|k: int| 0 <= k < dot_index(s) ==> s[k] != 46,
    decreases s.len(),
{
    if s.len() > 0 && s[0] != 46 {
        lemma_dot_index(s.drop_first());
        assert forall|k: int| 0 <= k < dot_index(s) implies s[k] != 46 by {
            if k > 0 {
                assert(s[k] == s.drop_first()[k - 1]);
            }
        }
    }
}

/// The digits before the decimal point.
pub open spec fn int_part(s: Seq<u8>) -> Seq<u8> {
    s.subrange(0, dot_index(s))
}

/// The digits after the decimal point.
pub open spec fn frac_part(s: Seq<u8>) -> Seq<u8> {
    if dot_index(s) < s.len() {
        s.subrange(dot_index(s) + 1, s.len() as int)
    } else {
        Seq::empty()
    }
}

/// `10^n`.
pub open spec fn pow10(n: nat) -> int
    decreases n,
{
    if n == 0 {
        1
    } else {
        10 * pow10((n - 1) as nat)
    }
}

/// Powers of ten up to the ninth.
pub proof fn lemma_pow10_small(n: nat)
    requires
        n <= 9,
    ensures
        1 <= pow10(n) <= 1_000_000_000,
        n < 9 ==> pow10(n) * 10 <= 1_000_000_000,
        pow10(n + 1) == 10 * pow10(n),
        pow10(9) == 1_000_000_000,
{
    reveal_with_fuel(pow10, 11);
}

/// A decimal digit string is worth less than ten to its length.
pub proof fn lemma_digits_value_bound(s: Seq<u8>)
    requires
        all_digits(s, 10),
    ensures
        0 <= digits_value(s, 10) < pow10(s.len()),
    decreases s.len(),
{
    if s.len() > 0 {
        lemma_digits_value_bound(s.drop_last());
        assert(digit_value(s.last(), 10) <= 9);
    }
}

/// Appending a zero digit multiplies by ten.
pub proof fn lemma_digits_value_zero(s: Seq<u8>)
    ensures
        digits_value(s.push(48u8), 10) == digits_value(s, 10) * 10,
{
    assert(s.push(48u8).drop_last() =~= s);
}

} // verus!
