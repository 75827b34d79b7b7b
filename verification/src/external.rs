//! Declarations of the standard-library and outside-crate items that the
//! verified code calls, with the contracts that the rest of the crate relies on.
use vstd::prelude::*;
use vstd::string::*;
use vstd::utf8::*;
use std::io::Write;

verus! {

/// `std::io::Error`, carried opaquely inside error values.
#[verifier::external_type_specification]
#[verifier::external_body]
pub struct ExIoError(std::io::Error);

/// Renders an I/O error with its `Display` implementation. Nothing is
/// promised about the text.
#[verifier::external_body]
pub(crate) fn io_error_text(error: &std::io::Error) -> String {
    error.to_string()
}

/// Builds an `std::io::Error` of kind `UnexpectedEof`, the error that
/// `Read::read_exact` reports when its input ends early.
#[verifier::external_body]
pub(crate) fn unexpected_eof_error() -> std::io::Error {
    std::io::Error::from(std::io::ErrorKind::UnexpectedEof)
}

/// Builds an `std::io::Error` of kind `InvalidData`, the error that
/// `BufRead::read_line` reports for a line that is not UTF-8.
#[verifier::external_body]
pub(crate) fn invalid_data_error() -> std::io::Error {
    std::io::Error::from(std::io::ErrorKind::InvalidData)
}

/// What `String::from_utf8_lossy` makes of a byte sequence.
pub uninterp spec fn utf8_lossy(bytes: Seq<u8>) -> Seq<char>;

/// `String::from_utf8_lossy(bytes).into_owned()`: valid UTF-8 is decoded as
/// it stands (std documents that only invalid sequences are replaced).
#[verifier::external_body]
pub(crate) fn string_from_utf8_lossy(bytes: &[u8]) -> (s: String)
    ensures
        s@ == utf8_lossy(bytes@),
        valid_utf8(bytes@) ==> s@ == decode_utf8(bytes@),
{
    String::from_utf8_lossy(bytes).into_owned()
}

/// What `format!("{:?}", s)` makes of a string: its `Debug` form.
pub uninterp spec fn debug_quoted(s: Seq<char>) -> Seq<char>;

/// Formats a string with its `Debug` implementation (quoted, with escapes).
#[verifier::external_body]
pub(crate) fn debug_quoted_text(s: &str) -> (r: String)
    ensures
        r@ == debug_quoted(s@),
{
    format!("{s:?}")
}

/// `std::str::from_utf8`: succeeds exactly on valid UTF-8, and the string
/// it returns holds the same bytes.
#[verifier::external_body]
pub(crate) fn str_from_utf8(bytes: &[u8]) -> (r: Option<&str>)
    ensures
        r is Some <==> valid_utf8(bytes@),
        r matches Some(s) ==> s.spec_bytes() == bytes@,
{
    std::str::from_utf8(bytes).ok()
}

/// `std::time::Instant`, a point on the monotonic clock.
#[verifier::external_type_specification]
#[verifier::external_body]
pub struct ExInstant(std::time::Instant);

/// `Instant::now`. Nothing is promised about the value.
#[verifier::external_body]
pub(crate) fn instant_now() -> std::time::Instant {
    std::time::Instant::now()
}

/// `Instant::elapsed`, in nanoseconds (`Duration::as_nanos`). Nothing is
/// promised about the value.
#[verifier::external_body]
pub(crate) fn nanos_since(start: &std::time::Instant) -> u128 {
    start.elapsed().as_nanos()
}

/// Writes a line of text to standard output (`writeln!` on
/// `std::io::stdout`); a failed write is ignored, as `println!` would not
/// report it either. Nothing is promised.
#[verifier::external_body]
pub(crate) fn print_line(text: &str) {
    let _ = writeln!(std::io::stdout(), "{text}");
}

/// Current wall-clock time as nanoseconds since the Unix epoch
/// (`SystemTime::now`); 0 if the clock is before the epoch, and the value
/// wraps to 64 bits. Nothing is promised about the value.
#[verifier::external_body]
pub(crate) fn system_time_nanos() -> u64 {
    std::time::SystemTime::now()
        .duration_since(std::time::UNIX_EPOCH)
        .unwrap_or_default()
        .as_nanos() as u64
}


/// `bytes::Bytes`, the shared byte buffer that frames and CAN XL messages carry.
#[verifier::external_type_specification]
#[verifier::external_body]
pub struct ExBytes(bytes::Bytes);

/// The bytes that a `bytes::Bytes` buffer holds.
pub uninterp spec fn bytes_view(b: bytes::Bytes) -> Seq<u8>;

/// `Bytes::new`: an empty buffer.
#[verifier::external_body]
pub(crate) fn bytes_new() -> (b: bytes::Bytes)
    ensures
        bytes_view(b) == Seq::<u8>::empty(),
{
    bytes::Bytes::new()
}

/// `Bytes::copy_from_slice`: a buffer holding a copy of the slice.
#[verifier::external_body]
pub(crate) fn bytes_copy_from_slice(s: &[u8]) -> (b: bytes::Bytes)
    ensures
        bytes_view(b) == s@,
{
    bytes::Bytes::copy_from_slice(s)
}

/// `<Bytes as Deref>::deref`: the buffer's bytes as a slice.
#[verifier::external_body]
pub(crate) fn bytes_as_slice(b: &bytes::Bytes) -> (s: &[u8])
    ensures
        s@ == bytes_view(*b),
{
    b
}

/// `<Bytes as Clone>::clone`: another handle on the same bytes.
pub assume_specification[ <bytes::Bytes as Clone>::clone ](b: &bytes::Bytes) -> (c: bytes::Bytes)
    ensures
        bytes_view(c) == bytes_view(*b),
;

/// What `flate2::read::ZlibDecoder` yields as the first `n` bytes of the
/// inflated stream, if that many can be read.
pub uninterp spec fn zlib_exact(data: Seq<u8>, n: nat) -> Option<Seq<u8>>;

/// The whole inflated stream, if the input inflates without error.
pub uninterp spec fn zlib_to_end(data: Seq<u8>) -> Option<Seq<u8>>;

/// Inflates `data` with `flate2::read::ZlibDecoder` and reads exactly `n`
/// bytes (`Read::read_exact`); the buffer it fills is exactly `n` bytes long.
#[verifier::external_body]
pub(crate) fn zlib_read_exact(data: &[u8], n: usize) -> (r: Result<Vec<u8>, std::io::Error>)
    ensures
        r is Ok <==> zlib_exact(data@, n as nat) is Some,
        r matches Ok(v) ==> v@ == zlib_exact(data@, n as nat).unwrap() && v@.len() == n,
{
    let mut buf = vec![0u8; n];
    let mut decoder = flate2::read::ZlibDecoder::new(data);
    std::io::Read::read_exact(&mut decoder, &mut buf)?;
    Ok(buf)
}

/// Inflates `data` with `flate2::read::ZlibDecoder` to its end
/// (`Read::read_to_end`).
#[verifier::external_body]
pub(crate) fn zlib_read_to_end(data: &[u8]) -> (r: Result<Vec<u8>, std::io::Error>)
    ensures
        r is Ok <==> zlib_to_end(data@) is Some,
        r matches Ok(v) ==> v@ == zlib_to_end(data@).unwrap(),
{
    let mut buf = Vec::new();
    let mut decoder = flate2::read::ZlibDecoder::new(data);
    std::io::Read::read_to_end(&mut decoder, &mut buf)?;
    Ok(buf)
}

/// `Clone` for `core::time::Duration`, a `Copy` type: the clone is the
/// same duration.
pub assume_specification[<core::time::Duration as Clone>::clone](d: &core::time::Duration) -> (r: core::time::Duration)
    ensures
        r == *d,
;

} // verus!
