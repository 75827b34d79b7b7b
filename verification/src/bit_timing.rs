//! CAN 2.0 and CAN FD bit timing: validation, bitrate and SJA1000-style
//! register conversion.
//!
//! `bitrate = f_clock / (brp * (1 + tseg1 + tseg2))`, and the sample point
//! lies at `100 * (1 + tseg1) / (1 + tseg1 + tseg2)` percent of the bit.
use std::collections::BTreeMap;

use vstd::prelude::*;
use vstd::string::StringExecFns;

use crate::text::{chars_of, dec_digits, decimal_string, text_then_number, text_with_number};

verus! {

/// A CAN 2.0 bit timing configuration.
#[derive(Debug, Clone, Copy, PartialEq, Eq, Structural)]
pub struct BitTiming {
    /// CAN system clock frequency in Hz.
    pub f_clock: u32,
    /// Baud rate prescaler (1-64).
    pub brp: u16,
    /// Time segment 1 (1-16 quanta).
    pub tseg1: u16,
    /// Time segment 2 (1-8 quanta).
    pub tseg2: u16,
    /// Synchronization jump width (1-4 quanta).
    pub sjw: u16,
    /// Number of samples per bit (1 or 3).
    pub nof_samples: u8,
}

/// The sample point in tenths of a percent, rounded to the nearest tenth.
pub open spec fn sample_point_tenths(tseg1: nat, tseg2: nat) -> nat {
    let total = 1 + tseg1 + tseg2;
    (2000 * (1 + tseg1) + total) / (2 * total)
}

/// Why a timing is invalid, in the order in which [`BitTiming::validate`]
/// checks it; `None` for a valid timing.
pub open spec fn timing_error(bt: BitTiming) -> Option<Seq<char>> {
    if !(1 <= bt.brp <= 64) {
        Some("BRP must be in [1..64], got "@ + chars_of(dec_digits(bt.brp as nat)))
    } else if !(1 <= bt.tseg1 <= 16) {
        Some("TSEG1 must be in [1..16], got "@ + chars_of(dec_digits(bt.tseg1 as nat)))
    } else if !(1 <= bt.tseg2 <= 8) {
        Some("TSEG2 must be in [1..8], got "@ + chars_of(dec_digits(bt.tseg2 as nat)))
    } else if !(1 <= bt.sjw <= 4) {
        Some("SJW must be in [1..4], got "@ + chars_of(dec_digits(bt.sjw as nat)))
    } else if bt.sjw > bt.tseg2 {
        Some(
            "SJW ("@ + chars_of(dec_digits(bt.sjw as nat)) + ") must not be greater than TSEG2 ("@
                + chars_of(dec_digits(bt.tseg2 as nat)) + ")"@,
        )
    } else if 2 * (1 + bt.tseg1) < 1 + bt.tseg1 + bt.tseg2 {
        Some(
            "Sample point ("@ + chars_of(
                dec_digits(sample_point_tenths(bt.tseg1 as nat, bt.tseg2 as nat) / 10),
            ) + "."@ + chars_of(dec_digits(sample_point_tenths(bt.tseg1 as nat, bt.tseg2 as nat) % 10))
                + "%) must be >= 50%"@,
        )
    } else if bt.nof_samples != 1 && bt.nof_samples != 3 {
        Some("Number of samples must be 1 or 3, got "@ + chars_of(dec_digits(bt.nof_samples as nat)))
    } else {
        None
    }
}

/// A timing with all parameters in range.
pub open spec fn timing_valid(bt: BitTiming) -> bool {
    timing_error(bt) is None
}

/// The bitrate of a timing in bits/s.
pub open spec fn spec_bitrate(bt: BitTiming) -> int {
    bt.f_clock as int / (bt.brp as int * (1 + bt.tseg1 + bt.tseg2))
}

/// The timing encoded by SJA1000 BTR0/BTR1 register values.
pub open spec fn timing_of_registers(f_clock: u32, btr0: u8, btr1: u8) -> BitTiming {
    BitTiming {
        f_clock,
        brp: ((btr0 & 0x3F) + 1) as u16,
        sjw: ((btr0 >> 6) + 1) as u16,
        tseg1: ((btr1 & 0x0F) + 1) as u16,
        tseg2: (((btr1 >> 4) & 0x07) + 1) as u16,
        nof_samples: if btr1 & 0x80 != 0 { 3 } else { 1 },
    }
}

/// The SJA1000 BTR0/BTR1 register values of a timing.
pub open spec fn registers_of_timing(bt: BitTiming) -> (u8, u8) {
    (
        (((bt.brp - 1) as u16 & 0x3F) as u8 | (((bt.sjw - 1) as u16 & 0x03) << 6) as u8),
        ((((bt.tseg1 - 1) as u16 & 0x0F) as u8 | (((bt.tseg2 - 1) as u16 & 0x07) << 4) as u8) | (
        if bt.nof_samples == 3 {
            0x80u8
        } else {
            0u8
        })),
    )
}

/// The text of the error that the sample-point check reports.
fn sample_point_error(tseg1: u16, tseg2: u16) -> (s: String)
    requires
        1 <= tseg1 <= 16,
        1 <= tseg2 <= 8,
    ensures
        s@ == "Sample point ("@ + chars_of(
            dec_digits(sample_point_tenths(tseg1 as nat, tseg2 as nat) / 10),
        ) + "."@ + chars_of(dec_digits(sample_point_tenths(tseg1 as nat, tseg2 as nat) % 10))
            + "%) must be >= 50%"@,
{
    let total: u64 = 1 + tseg1 as u64 + tseg2 as u64;
    let tenths: u64 = (2000 * (1 + tseg1 as u64) + total) / (2 * total);
    let whole = text_with_number("Sample point (", tenths / 10, ".");
    let frac = decimal_string(tenths % 10);
    let s = whole.concat(frac.as_str());
    s.concat("%) must be >= 50%")
}

impl BitTiming {
    /// Checks the parameters against the CAN specification: ranges of BRP,
    /// TSEG1, TSEG2 and SJW, `sjw <= tseg2`, a sample point of at least 50%
    /// and 1 or 3 samples.
    pub fn validate(&self) -> (r: Result<(), String>)
        ensures
            r is Ok <==> timing_valid(*self),
            r matches Err(e) ==> e@ == timing_error(*self).unwrap(),
    {
        if !(1 <= self.brp && self.brp <= 64) {
            return Err(text_then_number("BRP must be in [1..64], got ", self.brp as u64));
        }
        if !(1 <= self.tseg1 && self.tseg1 <= 16) {
            return Err(text_then_number("TSEG1 must be in [1..16], got ", self.tseg1 as u64));
        }
        if !(1 <= self.tseg2 && self.tseg2 <= 8) {
            return Err(text_then_number("TSEG2 must be in [1..8], got ", self.tseg2 as u64));
        }
        if !(1 <= self.sjw && self.sjw <= 4) {
            return Err(text_then_number("SJW must be in [1..4], got ", self.sjw as u64));
        }
        if self.sjw > self.tseg2 {
            let head = text_with_number("SJW (", self.sjw as u64, ") must not be greater than TSEG2 (");
            let tail = decimal_string(self.tseg2 as u64);
            let s = head.concat(tail.as_str());
            return Err(s.concat(")"));
        }
        if 2 * (1 + self.tseg1) < 1 + self.tseg1 + self.tseg2 {
            return Err(sample_point_error(self.tseg1, self.tseg2));
        }
        if self.nof_samples != 1 && self.nof_samples != 3 {
            return Err(text_then_number("Number of samples must be 1 or 3, got ", self.nof_samples as u64));
        }
        Ok(())
    }

    /// Creates a timing and validates it.
    pub fn new(f_clock: u32, brp: u16, tseg1: u16, tseg2: u16, sjw: u16, nof_samples: u8) -> (r: Result<Self, String>)
        ensures
            ({
                let bt = BitTiming { f_clock, brp, tseg1, tseg2, sjw, nof_samples };
                &&& r is Ok <==> timing_valid(bt)
                &&& r matches Ok(t) ==> t == bt
                &&& r matches Err(e) ==> e@ == timing_error(bt).unwrap()
            }),
    {
        let bt = BitTiming { f_clock, brp, tseg1, tseg2, sjw, nof_samples };
        match bt.validate() {
            Ok(()) => Ok(bt),
            Err(e) => Err(e),
        }
    }

    /// Creates a timing from a bitrate and segment values, computing
    /// `brp = f_clock / (bitrate * (1 + tseg1 + tseg2))`; fails when that is 0
    /// or above 64, or when the timing is invalid.
    pub fn from_bitrate_and_segments(
        f_clock: u32,
        bitrate: u32,
        tseg1: u16,
        tseg2: u16,
        sjw: u16,
        nof_samples: u8,
    ) -> (r: Result<Self, String>)
        requires
            1 + tseg1 + tseg2 <= u16::MAX,
            bitrate > 0,
            bitrate * (1 + tseg1 + tseg2) <= u32::MAX,
        ensures
            ({
                let brp = f_clock as int / (bitrate as int * (1 + tseg1 + tseg2));
                let bt = BitTiming { f_clock, brp: brp as u16, tseg1, tseg2, sjw, nof_samples };
                &&& r is Ok <==> (1 <= brp <= 64 && timing_valid(bt))
                &&& r matches Ok(t) ==> t == bt
                &&& r matches Err(e) ==> (if 1 <= brp <= 64 {
                    e@ == timing_error(bt).unwrap()
                } else {
                    e@ == "Cannot achieve bitrate "@ + chars_of(dec_digits(bitrate as nat))
                        + " with f_clock="@ + chars_of(dec_digits(f_clock as nat))
                        + " and tseg1="@ + chars_of(dec_digits(tseg1 as nat)) + ", tseg2="@
                        + chars_of(dec_digits(tseg2 as nat)) + ": brp would be "@ + chars_of(
                        dec_digits(brp as nat),
                    )
                })
            }),
    {
        let total_tq: u16 = 1 + tseg1 + tseg2;
        let divisor: u32 = bitrate * total_tq as u32;
        assert(divisor > 0) by (nonlinear_arith)
            requires
                divisor == bitrate * total_tq,
                bitrate > 0,
                total_tq >= 1,
        ;
        let brp: u32 = f_clock / divisor;
        if brp == 0 || brp > 64 {
            let s = text_with_number("Cannot achieve bitrate ", bitrate as u64, " with f_clock=");
            let s = s.concat(decimal_string(f_clock as u64).as_str());
            let s = s.concat(" and tseg1=");
            let s = s.concat(decimal_string(tseg1 as u64).as_str());
            let s = s.concat(", tseg2=");
            let s = s.concat(decimal_string(tseg2 as u64).as_str());
            let s = s.concat(": brp would be ");
            let s = s.concat(decimal_string(brp as u64).as_str());
            return Err(s);
        }
        Self::new(f_clock, brp as u16, tseg1, tseg2, sjw, nof_samples)
    }

    /// Creates a timing from SJA1000 BTR0 and BTR1 register values and
    /// validates it.
    pub fn from_registers(f_clock: u32, btr0: u8, btr1: u8) -> (r: Result<Self, String>)
        ensures
            r is Ok <==> timing_valid(timing_of_registers(f_clock, btr0, btr1)),
            r matches Ok(t) ==> t == timing_of_registers(f_clock, btr0, btr1),
            r matches Err(e) ==> e@ == timing_error(timing_of_registers(f_clock, btr0, btr1)).unwrap(),
    {
        proof {
            assert(btr0 & 0x3F <= 0x3F) by (bit_vector);
            assert(btr0 >> 6 <= 3) by (bit_vector);
            assert(btr1 & 0x0F <= 0x0F) by (bit_vector);
            assert((btr1 >> 4) & 0x07 <= 7) by (bit_vector);
        }
        let brp = ((btr0 & 0x3F) + 1) as u16;
        let sjw = ((btr0 >> 6) + 1) as u16;
        let tseg1 = ((btr1 & 0x0F) + 1) as u16;
        let tseg2 = (((btr1 >> 4) & 0x07) + 1) as u16;
        let sam: u8 = if btr1 & 0x80 != 0 { 3 } else { 1 };
        Self::new(f_clock, brp, tseg1, tseg2, sjw, sam)
    }

    /// The bitrate in bits/s.
    pub fn bitrate(&self) -> (b: u32)
        requires
            self.brp >= 1,
            self.brp * (1 + self.tseg1 + self.tseg2) <= u32::MAX,
        ensures
            b == spec_bitrate(*self),
    {
        let total_tq = 1 + self.tseg1 as u32 + self.tseg2 as u32;
        let divisor: u32 = self.brp as u32 * total_tq;
        assert(divisor > 0) by (nonlinear_arith)
            requires
                divisor == self.brp * total_tq,
                self.brp >= 1,
                total_tq >= 1,
        ;
        self.f_clock / divisor
    }

    /// The SJA1000 BTR0/BTR1 register values.
    pub fn to_registers(&self) -> (r: (u8, u8))
        requires
            self.brp >= 1,
            self.sjw >= 1,
            self.tseg1 >= 1,
            self.tseg2 >= 1,
        ensures
            r == registers_of_timing(*self),
    {
        let btr0 = ((self.brp - 1) & 0x3F) as u8 | (((self.sjw - 1) & 0x03) << 6) as u8;
        let mut btr1 = ((self.tseg1 - 1) & 0x0F) as u8 | (((self.tseg2 - 1) & 0x07) << 4) as u8;
        if self.nof_samples == 3 {
            btr1 = btr1 | 0x80;
        } else {
            assert(btr1 | 0u8 == btr1) by (bit_vector);
        }
        (btr0, btr1)
    }
}

/// The SJA1000 register layout as read: BTR0 holds `brp − 1` in its low six
/// bits and `sjw − 1` in its top two; BTR1 holds `tseg1 − 1` in its low four
/// bits, `tseg2 − 1` in the next three and triple sampling in the top bit.
pub proof fn law_register_fields(f_clock: u32, btr0: u8, btr1: u8)
    ensures
        timing_of_registers(f_clock, btr0, btr1).brp == btr0 % 64 + 1,
        timing_of_registers(f_clock, btr0, btr1).sjw == btr0 / 64 + 1,
        timing_of_registers(f_clock, btr0, btr1).tseg1 == btr1 % 16 + 1,
        timing_of_registers(f_clock, btr0, btr1).tseg2 == (btr1 / 16) % 8 + 1,
        timing_of_registers(f_clock, btr0, btr1).nof_samples == if btr1 >= 128 {
            3u8
        } else {
            1u8
        },
        timing_of_registers(f_clock, btr0, btr1).f_clock == f_clock,
{
    assert(btr0 & 0x3F == btr0 % 64) by (bit_vector);
    assert(btr0 >> 6 == btr0 / 64) by (bit_vector);
    assert(btr1 & 0x0F == btr1 % 16) by (bit_vector);
    assert((btr1 >> 4) & 0x07 == (btr1 / 16) % 8) by (bit_vector);
    assert((btr1 & 0x80 != 0) == (btr1 >= 128)) by (bit_vector);
}

/// The SJA1000 register layout as written, for a timing in the registers'
/// ranges: `BTR0 = (brp − 1) + 64·(sjw − 1)` and
/// `BTR1 = (tseg1 − 1) + 16·(tseg2 − 1)`, plus 128 with triple sampling.
pub proof fn law_register_encoding(bt: BitTiming)
    requires
        1 <= bt.brp <= 64,
        1 <= bt.sjw <= 4,
        1 <= bt.tseg1 <= 16,
        1 <= bt.tseg2 <= 8,
    ensures
        registers_of_timing(bt).0 == (bt.brp - 1) + 64 * (bt.sjw - 1),
        registers_of_timing(bt).1 == (bt.tseg1 - 1) + 16 * (bt.tseg2 - 1) + if bt.nof_samples == 3 {
            128int
        } else {
            0int
        },
{
    let c = (bt.brp - 1) as u16;
    let j = (bt.sjw - 1) as u16;
    let t1 = (bt.tseg1 - 1) as u16;
    let t2 = (bt.tseg2 - 1) as u16;
    assert(((c & 0x3F) as u8 | ((j & 0x03) << 6) as u8) == c + 64 * j) by (bit_vector)
        requires
            c < 64,
            j < 4,
    ;
    assert(((t1 & 0x0F) as u8 | ((t2 & 0x07) << 4) as u8) == t1 + 16 * t2) by (bit_vector)
        requires
            t1 < 16,
            t2 < 8,
    ;
    let low = ((t1 & 0x0F) as u8 | ((t2 & 0x07) << 4) as u8);
    assert((low | 0x80u8) == low + 128) by (bit_vector)
        requires
            low < 128,
    ;
    assert((low | 0u8) == low) by (bit_vector);
}

/// A valid timing survives the trip through the SJA1000 registers.
pub proof fn law_registers_roundtrip(bt: BitTiming)
    requires
        timing_valid(bt),
    ensures
        ({
            let (btr0, btr1) = registers_of_timing(bt);
            timing_of_registers(bt.f_clock, btr0, btr1) == bt
        }),
{
    let brp = bt.brp;
    let sjw = bt.sjw;
    let t1 = bt.tseg1;
    let t2 = bt.tseg2;
    let (b0, b1) = registers_of_timing(bt);
    let hi: u8 = if bt.nof_samples == 3 { 0x80 } else { 0 };
    assert({
        let b0 = (((brp - 1) as u16 & 0x3F) as u8 | (((sjw - 1) as u16 & 0x03) << 6) as u8);
        let b1 = ((((t1 - 1) as u16 & 0x0F) as u8 | (((t2 - 1) as u16 & 0x07) << 4) as u8) | hi);
        &&& ((b0 & 0x3F) + 1) as u16 == brp
        &&& ((b0 >> 6) + 1) as u16 == sjw
        &&& ((b1 & 0x0F) + 1) as u16 == t1
        &&& (((b1 >> 4) & 0x07) + 1) as u16 == t2
        &&& (b1 & 0x80 != 0) == (hi == 0x80)
    }) by (bit_vector)
        requires
            1 <= brp <= 64,
            1 <= sjw <= 4,
            1 <= t1 <= 16,
            1 <= t2 <= 8,
            hi == 0x80 || hi == 0,
    ;
}

/// Register values that decode to a valid timing encode back to themselves.
pub proof fn law_registers_decode_encode(f_clock: u32, btr0: u8, btr1: u8)
    requires
        timing_valid(timing_of_registers(f_clock, btr0, btr1)),
    ensures
        registers_of_timing(timing_of_registers(f_clock, btr0, btr1)) == (btr0, btr1),
{
    let hi: u8 = if btr1 & 0x80 != 0 { 0x80 } else { 0 };
    assert({
        let brp = ((btr0 & 0x3F) + 1) as u16;
        let sjw = ((btr0 >> 6) + 1) as u16;
        let t1 = ((btr1 & 0x0F) + 1) as u16;
        let t2 = (((btr1 >> 4) & 0x07) + 1) as u16;
        &&& (((brp - 1) as u16 & 0x3F) as u8 | (((sjw - 1) as u16 & 0x03) << 6) as u8) == btr0
        &&& ((((t1 - 1) as u16 & 0x0F) as u8 | (((t2 - 1) as u16 & 0x07) << 4) as u8) | hi) == btr1
    }) by (bit_vector)
        requires
            hi == (if btr1 & 0x80 != 0 { 0x80u8 } else { 0u8 }),
    ;
}

/// CAN FD bit timing: arbitration (nominal) and data phase.
#[derive(Debug, Clone, Copy, PartialEq, Eq, Structural)]
pub struct BitTimingFd {
    /// Arbitration phase timing.
    pub nominal: BitTiming,
    /// Data phase timing.
    pub data: BitTiming,
}

impl BitTimingFd {
    /// Creates CAN FD bit timing from nominal and data phase timing.
    pub fn new(nominal: BitTiming, data: BitTiming) -> (t: Self)
        ensures
            t == (BitTimingFd { nominal, data }),
    {
        BitTimingFd { nominal, data }
    }

    /// The nominal (arbitration) bitrate.
    pub fn nominal_bitrate(&self) -> (b: u32)
        requires
            self.nominal.brp >= 1,
            self.nominal.brp * (1 + self.nominal.tseg1 + self.nominal.tseg2) <= u32::MAX,
        ensures
            b == spec_bitrate(self.nominal),
    {
        self.nominal.bitrate()
    }

    /// The data phase bitrate.
    pub fn data_bitrate(&self) -> (b: u32)
        requires
            self.data.brp >= 1,
            self.data.brp * (1 + self.data.tseg1 + self.data.tseg2) <= u32::MAX,
        ensures
            b == spec_bitrate(self.data),
    {
        self.data.bitrate()
    }
}

/// The 8 MHz preset with prescaler `brp`, TSEG1 5, TSEG2 2, SJW 1, one sample.
pub open spec fn preset(brp: u16) -> BitTiming {
    BitTiming { f_clock: 8_000_000, brp, tseg1: 5, tseg2: 2, sjw: 1, nof_samples: 1 }
}

/// The preset table, keyed by nominal bitrate.
pub open spec fn presets_map() -> Map<u32, BitTiming> {
    map![
        1_000_000u32 => preset(1),
        500_000u32 => preset(2),
        250_000u32 => preset(4),
        125_000u32 => preset(8),
        100_000u32 => preset(10),
        50_000u32 => preset(20),
        20_000u32 => preset(50),
        10_000u32 => preset(64),
    ]
}

fn preset_timing(brp: u16) -> (bt: BitTiming)
    requires
        1 <= brp <= 64,
    ensures
        bt == preset(brp),
{
    match BitTiming::new(8_000_000, brp, 5, 2, 1, 1) {
        Ok(bt) => bt,
        Err(_) => {
            assert(false);
            BitTiming { f_clock: 8_000_000, brp, tseg1: 5, tseg2: 2, sjw: 1, nof_samples: 1 }
        },
    }
}

/// Common bit timing presets for standard bitrates at an 8 MHz clock. The
/// 10 kbit/s entry would need a prescaler of 100, above the limit of 64, so
/// it holds the prescaler-64 timing instead.
pub fn standard_presets() -> (m: BTreeMap<u32, BitTiming>)
    ensures
        m@ == presets_map(),
{
    broadcast use vstd::std_specs::btree::group_btree_axioms;
    let mut presets: BTreeMap<u32, BitTiming> = BTreeMap::new();
    presets.insert(1_000_000, preset_timing(1));
    presets.insert(500_000, preset_timing(2));
    presets.insert(250_000, preset_timing(4));
    presets.insert(125_000, preset_timing(8));
    presets.insert(100_000, preset_timing(10));
    presets.insert(50_000, preset_timing(20));
    presets.insert(20_000, preset_timing(50));
    let ten_k = match BitTiming::new(8_000_000, 100, 5, 2, 1, 1) {
        Ok(bt) => bt,
        Err(_) => preset_timing(64),
    };
    presets.insert(10_000, ten_k);
    assert(presets@ =~= presets_map());
    presets
}

} // verus!
