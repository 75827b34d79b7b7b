//! Little-endian integers in byte buffers, BLF constants and the BLF error type.
use vstd::prelude::*;
use vstd::string::StringExecFns;

use crate::external::io_error_text;
use crate::text::{chars_of, dec_digits, text_then_number};

verus! {

/// Size of the fixed part of the file header.
pub const FILE_HEADER_STRUCT_SIZE: usize = 72;
/// Size of the file header as written.
pub const FILE_HEADER_SIZE: usize = 144;
/// Size of the common object header.
pub const OBJ_HEADER_BASE_SIZE: usize = 16;
/// Size of the version 1 object header extension.
pub const OBJ_HEADER_V1_SIZE: usize = 16;
/// Size of the version 2 object header extension.
pub const OBJ_HEADER_V2_SIZE: usize = 24;
/// Size of the log container structure before its data.
pub const LOG_CONTAINER_STRUCT_SIZE: usize = 16;
/// Size of a CAN message structure.
pub const CAN_MSG_STRUCT_SIZE: usize = 16;
/// Size of a CAN FD message structure.
pub const CAN_FD_MSG_STRUCT_SIZE: usize = 84;
/// Size of a CAN FD 64 message structure.
pub const CAN_FD_MSG_64_STRUCT_SIZE: usize = 40;
/// Object buffer size at which the writer emits a log container.
pub const MAX_CONTAINER_SIZE: usize = 131072;

/// Object type: CAN message.
pub const CAN_MESSAGE: u32 = 1;
/// Object type: log container.
pub const LOG_CONTAINER: u32 = 10;
/// Object type: CAN message, second layout.
pub const CAN_MESSAGE2: u32 = 86;
/// Object type: CAN FD message.
pub const CAN_FD_MESSAGE: u32 = 100;
/// Object type: CAN FD 64 message.
pub const CAN_FD_MESSAGE_64: u32 = 101;

/// Log container compression: none.
pub const NO_COMPRESSION: u16 = 0;
/// Log container compression: zlib deflate.
pub const ZLIB_DEFLATE: u16 = 2;

/// Extended-identifier bit of a BLF arbitration identifier.
pub const CAN_MSG_EXT: u32 = 0x8000_0000;
/// Remote-frame bit of a CAN message's flags.
pub const REMOTE_FLAG: u8 = 0x80;
/// Transmit-direction bit of a CAN message's flags.
pub const DIR: u8 = 0x01;
/// Extended data length bit of a CAN FD message's FD flags.
pub const EDL: u8 = 0x01;
/// Bitrate switch bit of a CAN FD message's FD flags.
pub const BRS: u8 = 0x02;
/// Error state indicator bit of a CAN FD message's FD flags.
pub const ESI: u8 = 0x04;
/// Bitrate switch bit of a CAN FD 64 message's flags.
pub const FD64_BRS: u32 = 0x2000;
/// Error state indicator bit of a CAN FD 64 message's flags.
pub const FD64_ESI: u32 = 0x4000;
/// Object timestamps in units of 10 microseconds.
pub const TIME_TEN_MICS: u32 = 1;
/// Object timestamps in nanoseconds.
pub const TIME_ONE_NANS: u32 = 2;

/// Error returned while parsing BLF data.
#[derive(Debug)]
pub enum BlfParseError {
    /// Input/output failure: the input ended inside an object, or a
    /// compressed container could not be inflated.
    Io(std::io::Error),
    /// The file header signature is not `LOGG`.
    InvalidFileSignature,
    /// An object header signature is not `LOBJ`.
    InvalidObjectSignature,
    /// A field value was unsupported or inconsistent.
    InvalidField {
        /// Name of the invalid field.
        field: &'static str,
        /// The value or reason.
        value: String,
    },
    /// The input ended before the current object could be decoded.
    Truncated {
        /// Context where truncation was detected.
        context: &'static str,
    },
}

/// What went wrong, as the contracts speak of it.
pub ghost enum Fault {
    /// An `Io` error.
    Io,
    /// `InvalidFileSignature`.
    FileSignature,
    /// `InvalidObjectSignature`.
    ObjectSignature,
    /// `InvalidField` with this field name and value text.
    Field(Seq<char>, Seq<char>),
    /// `Truncated` with this context.
    Truncated(Seq<char>),
}

/// Whether an error is the one a fault describes.
pub open spec fn is_fault(e: BlfParseError, f: Fault) -> bool {
    match f {
        Fault::Io => e is Io,
        Fault::FileSignature => e is InvalidFileSignature,
        Fault::ObjectSignature => e is InvalidObjectSignature,
        Fault::Field(field, value) => e matches BlfParseError::InvalidField { field: fd, value: v }
            && fd@ == field && v@ == value,
        Fault::Truncated(ctx) => e matches BlfParseError::Truncated { context } && context@ == ctx,
    }
}

/// Whether an exec result is the one a spec result describes.
pub open spec fn agrees<T>(r: Result<T, BlfParseError>, s: Result<T, Fault>) -> bool {
    match (r, s) {
        (Ok(a), Ok(b)) => a == b,
        (Err(e), Err(f)) => is_fault(e, f),
        _ => false,
    }
}

/// An invalid-field fault whose value is a decimal number.
pub open spec fn field_fault(field: Seq<char>, n: nat) -> Fault {
    Fault::Field(field, chars_of(dec_digits(n)))
}

impl BlfParseError {
    /// The error as user-visible text.
    pub fn message(&self) -> (s: String)
        ensures
            self is InvalidFileSignature ==> s@ == "BLF file header signature must be LOGG"@,
            self is InvalidObjectSignature ==> s@ == "BLF object header signature must be LOBJ"@,
            self matches BlfParseError::InvalidField { field, value } ==> s@ == "invalid BLF "@
                + field@ + ": "@ + value@,
            self matches BlfParseError::Truncated { context } ==> s@
                == "truncated BLF input while reading "@ + context@,
            self is Io ==> s@.len() >= 14 && s@.subrange(0, 14) == "BLF IO error: "@,
    {
        match self {
            BlfParseError::Io(error) => {
                let text = io_error_text(error);
                proof {
                    reveal_strlit("BLF IO error: ");
                }
                String::from_str("BLF IO error: ").concat(text.as_str())
            },
            BlfParseError::InvalidFileSignature => String::from_str("BLF file header signature must be LOGG"),
            BlfParseError::InvalidObjectSignature => String::from_str("BLF object header signature must be LOBJ"),
            BlfParseError::InvalidField { field, value } => {
                String::from_str("invalid BLF ").concat(field).concat(": ").concat(value.as_str())
            },
            BlfParseError::Truncated { context } => {
                String::from_str("truncated BLF input while reading ").concat(context)
            },
        }
    }
}

impl From<std::io::Error> for BlfParseError {
    fn from(error: std::io::Error) -> (e: Self) {
        BlfParseError::Io(error)
    }
}

impl vstd::std_specs::convert::FromSpecImpl<std::io::Error> for BlfParseError {
    open spec fn obeys_from_spec() -> bool {
        true
    }

    open spec fn from_spec(error: std::io::Error) -> Self {
        BlfParseError::Io(error)
    }
}

/// An invalid-field error whose value is a decimal number.
pub fn invalid_number(field: &'static str, n: u64) -> (e: BlfParseError)
    ensures
        is_fault(e, field_fault(field@, n as nat)),
{
    let value = text_then_number("", n);
    proof {
        reveal_strlit("");
        assert(""@ + chars_of(dec_digits(n as nat)) =~= chars_of(dec_digits(n as nat)));
    }
    BlfParseError::InvalidField { field, value }
}

/// Little-endian 16-bit value at `o`.
pub open spec fn le16(d: Seq<u8>, o: int) -> u16 {
    (d[o] as int + 256 * d[o + 1] as int) as u16
}

/// Little-endian 32-bit value at `o`.
pub open spec fn le32(d: Seq<u8>, o: int) -> u32 {
    (d[o] as int + 256 * d[o + 1] as int + 65536 * d[o + 2] as int + 16777216 * d[o + 3] as int) as u32
}

/// Little-endian 64-bit value at `o`.
pub open spec fn le64(d: Seq<u8>, o: int) -> u64 {
    (le32(d, o) as int + 4294967296 * le32(d, o + 4) as int) as u64
}

/// The little-endian bytes of a 16-bit value.
pub open spec fn bytes16(v: u16) -> Seq<u8> {
    seq![(v % 256) as u8, (v / 256) as u8]
}

/// The little-endian bytes of a 32-bit value.
pub open spec fn bytes32(v: u32) -> Seq<u8> {
    seq![(v % 256) as u8, ((v / 256) % 256) as u8, ((v / 65536) % 256) as u8, (v / 16777216) as u8]
}

/// The little-endian bytes of a 64-bit value.
pub open spec fn bytes64(v: u64) -> Seq<u8> {
    bytes32((v % 4294967296) as u32) + bytes32((v / 4294967296) as u32)
}

/// Reads one byte; `Truncated("u8")` past the end.
pub fn read_u8(data: &[u8], offset: usize) -> (r: Result<u8, BlfParseError>)
    ensures
        agrees(
            r,
            if offset < data@.len() {
                Ok(data@[offset as int])
            } else {
                Err(Fault::Truncated("u8"@))
            },
        ),
{
    if offset < data.len() {
        Ok(data[offset])
    } else {
        Err(BlfParseError::Truncated { context: "u8" })
    }
}

/// Reads a little-endian 16-bit value; `Truncated("u16")` past the end.
pub fn read_u16(data: &[u8], offset: usize) -> (r: Result<u16, BlfParseError>)
    ensures
        agrees(
            r,
            if offset + 2 <= data@.len() {
                Ok(le16(data@, offset as int))
            } else {
                Err(Fault::Truncated("u16"@))
            },
        ),
{
    if offset <= data.len() && data.len() - offset >= 2 {
        Ok(data[offset] as u16 + 256 * data[offset + 1] as u16)
    } else {
        Err(BlfParseError::Truncated { context: "u16" })
    }
}

/// Reads a little-endian 32-bit value; `Truncated("u32")` past the end.
pub fn read_u32(data: &[u8], offset: usize) -> (r: Result<u32, BlfParseError>)
    ensures
        agrees(
            r,
            if offset + 4 <= data@.len() {
                Ok(le32(data@, offset as int))
            } else {
                Err(Fault::Truncated("u32"@))
            },
        ),
{
    if offset <= data.len() && data.len() - offset >= 4 {
        Ok(data[offset] as u32 + 256 * data[offset + 1] as u32 + 65536 * data[offset + 2] as u32
            + 16777216 * data[offset + 3] as u32)
    } else {
        Err(BlfParseError::Truncated { context: "u32" })
    }
}

/// Reads a little-endian 64-bit value; `Truncated("u64")` past the end.
pub fn read_u64(data: &[u8], offset: usize) -> (r: Result<u64, BlfParseError>)
    ensures
        agrees(
            r,
            if offset + 8 <= data@.len() {
                Ok(le64(data@, offset as int))
            } else {
                Err(Fault::Truncated("u64"@))
            },
        ),
{
    if offset <= data.len() && data.len() - offset >= 8 {
        let lo = data[offset] as u64 + 256 * data[offset + 1] as u64 + 65536 * data[offset + 2] as u64
            + 16777216 * data[offset + 3] as u64;
        let hi = data[offset + 4] as u64 + 256 * data[offset + 5] as u64 + 65536 * data[offset
            + 6] as u64 + 16777216 * data[offset + 7] as u64;
        Ok(lo + 4294967296 * hi)
    } else {
        Err(BlfParseError::Truncated { context: "u64" })
    }
}

/// Appends the little-endian bytes of a 16-bit value.
pub fn push_u16(output: &mut Vec<u8>, value: u16)
    ensures
        final(output)@ == old(output)@ + bytes16(value),
{
    output.push((value % 256) as u8);
    output.push((value / 256) as u8);
    assert(final(output)@ =~= old(output)@ + bytes16(value));
}

/// Appends the little-endian bytes of a 32-bit value.
pub fn push_u32(output: &mut Vec<u8>, value: u32)
    ensures
        final(output)@ == old(output)@ + bytes32(value),
{
    output.push((value % 256) as u8);
    output.push(((value / 256) % 256) as u8);
    output.push(((value / 65536) % 256) as u8);
    output.push((value / 16777216) as u8);
    assert(final(output)@ =~= old(output)@ + bytes32(value));
}

/// Appends the little-endian bytes of a 64-bit value.
pub fn push_u64(output: &mut Vec<u8>, value: u64)
    ensures
        final(output)@ == old(output)@ + bytes64(value),
{
    push_u32(output, (value % 4294967296) as u32);
    push_u32(output, (value / 4294967296) as u32);
    assert(final(output)@ =~= old(output)@ + bytes64(value));
}

/// Appends a slice of bytes.
pub fn push_bytes(output: &mut Vec<u8>, bytes: &[u8])
    ensures
        final(output)@ == old(output)@ + bytes@,
{
    output.extend_from_slice(bytes);
    assert(final(output)@ =~= old(output)@ + bytes@);
}

/// Overwrites two bytes at `offset` with the little-endian bytes of `value`.
pub fn write_u16_at(output: &mut Vec<u8>, offset: usize, value: u16)
    requires
        offset + 2 <= old(output)@.len(),
    ensures
        final(output)@ == old(output)@.subrange(0, offset as int) + bytes16(value) + old(
            output,
        )@.subrange(offset + 2, old(output)@.len() as int),
{
    let len = output.len();
    output.set(offset, (value % 256) as u8);
    assert(output@.len() == len);
    output.set(offset + 1, (value / 256) as u8);
    assert(final(output)@ =~= old(output)@.subrange(0, offset as int) + bytes16(value) + old(
        output,
    )@.subrange(offset + 2, old(output)@.len() as int));
}

/// Overwrites four bytes at `offset` with the little-endian bytes of `value`.
pub fn write_u32_at(output: &mut Vec<u8>, offset: usize, value: u32)
    requires
        offset + 4 <= old(output)@.len(),
    ensures
        final(output)@ == old(output)@.subrange(0, offset as int) + bytes32(value) + old(
            output,
        )@.subrange(offset + 4, old(output)@.len() as int),
{
    let len = output.len();
    output.set(offset, (value % 256) as u8);
    assert(output@.len() == len);
    output.set(offset + 1, ((value / 256) % 256) as u8);
    assert(output@.len() == len);
    output.set(offset + 2, ((value / 65536) % 256) as u8);
    assert(output@.len() == len);
    output.set(offset + 3, (value / 16777216) as u8);
    assert(final(output)@ =~= old(output)@.subrange(0, offset as int) + bytes32(value) + old(
        output,
    )@.subrange(offset + 4, old(output)@.len() as int));
}

/// Reading back the bytes of a written 16-bit value gives the value.
pub proof fn law_le16_roundtrip(v: u16, pre: Seq<u8>, post: Seq<u8>)
    ensures
        le16(pre + bytes16(v) + post, pre.len() as int) == v,
{
    let d = pre + bytes16(v) + post;
    assert(d[pre.len() as int] == (v % 256) as u8);
    assert(d[pre.len() as int + 1] == (v / 256) as u8);
}

/// Reading back the bytes of a written 32-bit value gives the value.
pub proof fn law_le32_roundtrip(v: u32, pre: Seq<u8>, post: Seq<u8>)
    ensures
        le32(pre + bytes32(v) + post, pre.len() as int) == v,
{
    let d = pre + bytes32(v) + post;
    let o = pre.len() as int;
    assert(v == (v % 256) + 256 * ((v / 256) % 256) + 65536 * ((v / 65536) % 256) + 16777216 * (v
        / 16777216)) by (bit_vector);
    assert(d[o] == (v % 256) as u8);
    assert(d[o + 1] == ((v / 256) % 256) as u8);
    assert(d[o + 2] == ((v / 65536) % 256) as u8);
    assert(d[o + 3] == (v / 16777216) as u8);
}

/// Reading back the bytes of a written 64-bit value gives the value.
pub proof fn law_le64_roundtrip(v: u64, pre: Seq<u8>, post: Seq<u8>)
    ensures
        le64(pre + bytes64(v) + post, pre.len() as int) == v,
{
    let lo = (v % 4294967296) as u32;
    let hi = (v / 4294967296) as u32;
    let d = pre + bytes64(v) + post;
    assert(d =~= pre + bytes32(lo) + (bytes32(hi) + post));
    law_le32_roundtrip(lo, pre, bytes32(hi) + post);
    assert(d =~= (pre + bytes32(lo)) + bytes32(hi) + post);
    law_le32_roundtrip(hi, pre + bytes32(lo), post);
}

} // verus!
