//! Bit flags packed into the `flags` byte of a [`CanMessage`](super::CanMessage).
//!
//! Layout (MSB to LSB): extended id, remote, error, FD, received, bitrate
//! switch, error state indicator, XL.
use vstd::prelude::*;

verus! {

/// Extended (29-bit) identifier flag.
pub const EXTENDED_ID: u8 = 0x80;
/// Remote transmission request frame.
pub const REMOTE_FRAME: u8 = 0x40;
/// Error frame indicator.
pub const ERROR_FRAME: u8 = 0x20;
/// CAN FD frame indicator.
pub const FD_FRAME: u8 = 0x10;
/// Received frame (as opposed to transmitted).
pub const RX_FRAME: u8 = 0x08;
/// Bitrate switch (CAN FD only).
pub const BITRATE_SWITCH: u8 = 0x04;
/// Error state indicator (CAN FD only).
pub const ERROR_STATE_INDICATOR: u8 = 0x02;
/// CAN XL frame indicator.
pub const XL_FRAME: u8 = 0x01;

/// Whether `mask` is set in `flags`.
pub open spec fn flag_set(flags: u8, mask: u8) -> bool {
    flags & mask != 0
}

/// The flags byte with exactly the given bits set.
pub open spec fn flags_byte(
    ext: bool,
    remote: bool,
    error: bool,
    fd: bool,
    rx: bool,
    brs: bool,
    esi: bool,
    xl: bool,
) -> u8 {
    ((if ext { 128int } else { 0 }) + (if remote { 64int } else { 0 }) + (if error { 32int } else {
        0
    }) + (if fd { 16int } else { 0 }) + (if rx { 8int } else { 0 }) + (if brs { 4int } else { 0 })
        + (if esi { 2int } else { 0 }) + (if xl { 1int } else { 0 })) as u8
}

/// Each bit of a flags byte built by [`flags_byte`] is the flag it was built from.
pub proof fn lemma_flags_byte_bits(
    ext: bool,
    remote: bool,
    error: bool,
    fd: bool,
    rx: bool,
    brs: bool,
    esi: bool,
    xl: bool,
)
    ensures
        ({
            let f = flags_byte(ext, remote, error, fd, rx, brs, esi, xl);
            &&& flag_set(f, EXTENDED_ID) == ext
            &&& flag_set(f, REMOTE_FRAME) == remote
            &&& flag_set(f, ERROR_FRAME) == error
            &&& flag_set(f, FD_FRAME) == fd
            &&& flag_set(f, RX_FRAME) == rx
            &&& flag_set(f, BITRATE_SWITCH) == brs
            &&& flag_set(f, ERROR_STATE_INDICATOR) == esi
            &&& flag_set(f, XL_FRAME) == xl
        }),
{
    let f = flags_byte(ext, remote, error, fd, rx, brs, esi, xl);
    let a: u8 = if ext { 128 } else { 0 };
    let b: u8 = if remote { 64 } else { 0 };
    let c: u8 = if error { 32 } else { 0 };
    let d: u8 = if fd { 16 } else { 0 };
    let e: u8 = if rx { 8 } else { 0 };
    let g: u8 = if brs { 4 } else { 0 };
    let h: u8 = if esi { 2 } else { 0 };
    let k: u8 = if xl { 1 } else { 0 };
    assert(f == (a + b + c + d + e + g + h + k) as u8);
    assert({
        let v = (a + b + c + d + e + g + h + k) as u8;
        &&& (v & 0x80 != 0) == (a == 128)
        &&& (v & 0x40 != 0) == (b == 64)
        &&& (v & 0x20 != 0) == (c == 32)
        &&& (v & 0x10 != 0) == (d == 16)
        &&& (v & 0x08 != 0) == (e == 8)
        &&& (v & 0x04 != 0) == (g == 4)
        &&& (v & 0x02 != 0) == (h == 2)
        &&& (v & 0x01 != 0) == (k == 1)
    }) by (bit_vector)
        requires
            a == 128 || a == 0,
            b == 64 || b == 0,
            c == 32 || c == 0,
            d == 16 || d == 0,
            e == 8 || e == 0,
            g == 4 || g == 0,
            h == 2 || h == 0,
            k == 1 || k == 0,
    ;
}

/// Builds the flags byte with exactly the given bits set.
pub fn make_flags(
    ext: bool,
    remote: bool,
    error: bool,
    fd: bool,
    rx: bool,
    brs: bool,
    esi: bool,
    xl: bool,
) -> (f: u8)
    ensures
        f == flags_byte(ext, remote, error, fd, rx, brs, esi, xl),
{
    let a: u8 = if ext { 128 } else { 0 };
    let b: u8 = if remote { 64 } else { 0 };
    let c: u8 = if error { 32 } else { 0 };
    let d: u8 = if fd { 16 } else { 0 };
    let e: u8 = if rx { 8 } else { 0 };
    let g: u8 = if brs { 4 } else { 0 };
    let h: u8 = if esi { 2 } else { 0 };
    let k: u8 = if xl { 1 } else { 0 };
    a + b + c + d + e + g + h + k
}

/// A flags byte is the byte built from its own bits.
pub proof fn lemma_flags_byte_of_bits(f: u8)
    ensures
        f == flags_byte(
            flag_set(f, EXTENDED_ID),
            flag_set(f, REMOTE_FRAME),
            flag_set(f, ERROR_FRAME),
            flag_set(f, FD_FRAME),
            flag_set(f, RX_FRAME),
            flag_set(f, BITRATE_SWITCH),
            flag_set(f, ERROR_STATE_INDICATOR),
            flag_set(f, XL_FRAME),
        ),
{
    let a: u8 = if f & 0x80 != 0 { 128 } else { 0 };
    let b: u8 = if f & 0x40 != 0 { 64 } else { 0 };
    let c: u8 = if f & 0x20 != 0 { 32 } else { 0 };
    let d: u8 = if f & 0x10 != 0 { 16 } else { 0 };
    let e: u8 = if f & 0x08 != 0 { 8 } else { 0 };
    let g: u8 = if f & 0x04 != 0 { 4 } else { 0 };
    let h: u8 = if f & 0x02 != 0 { 2 } else { 0 };
    let k: u8 = if f & 0x01 != 0 { 1 } else { 0 };
    assert(f == (a + b + c + d + e + g + h + k) as u8) by (bit_vector)
        requires
            a == (if f & 0x80 != 0 { 128u8 } else { 0u8 }),
            b == (if f & 0x40 != 0 { 64u8 } else { 0u8 }),
            c == (if f & 0x20 != 0 { 32u8 } else { 0u8 }),
            d == (if f & 0x10 != 0 { 16u8 } else { 0u8 }),
            e == (if f & 0x08 != 0 { 8u8 } else { 0u8 }),
            g == (if f & 0x04 != 0 { 4u8 } else { 0u8 }),
            h == (if f & 0x02 != 0 { 2u8 } else { 0u8 }),
            k == (if f & 0x01 != 0 { 1u8 } else { 0u8 }),
    ;
}

} // verus!
