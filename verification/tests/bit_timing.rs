use rust_can::bit_timing::{standard_presets, BitTiming, BitTimingFd};

#[test]
fn test_register_conversion() {
    let bt = BitTiming::new(8_000_000, 1, 5, 2, 1, 1).unwrap();
    let (btr0, btr1) = bt.to_registers();
    assert_eq!(btr0, 0x00);
    assert_eq!(btr1, 0x14);
}

#[test]
fn test_from_registers() {
    let bt = BitTiming::from_registers(8_000_000, 0x00, 0x14).unwrap();
    assert_eq!(bt.brp, 1);
    assert_eq!(bt.tseg1, 5);
    assert_eq!(bt.tseg2, 2);
}

#[test]
fn test_validation_sjw_le_tseg2() {
    let result = BitTiming::new(8_000_000, 1, 5, 2, 4, 1);
    assert!(result.is_err());
}

#[test]
fn rejects_out_of_range_timing_parameters() {
    assert!(BitTiming::new(8_000_000, 0, 5, 2, 1, 1).is_err());
    assert!(BitTiming::new(8_000_000, 1, 0, 2, 1, 1).is_err());
    assert!(BitTiming::new(8_000_000, 1, 5, 0, 1, 1).is_err());
    assert!(BitTiming::new(8_000_000, 1, 5, 2, 0, 1).is_err());
    assert!(BitTiming::new(8_000_000, 1, 1, 8, 1, 1).is_err());
    assert!(BitTiming::new(8_000_000, 1, 5, 2, 1, 2).is_err());
}

#[test]
fn from_bitrate_and_segments_rejects_impossible_prescaler() {
    let result = BitTiming::from_bitrate_and_segments(8_000_000, 1, 5, 2, 1, 1);
    assert!(result.is_err());
}

#[test]
fn fd_timing_reports_nominal_and_data_bitrates() {
    let nominal = BitTiming::new(8_000_000, 2, 5, 2, 1, 1).unwrap();
    let data = BitTiming::new(8_000_000, 1, 5, 2, 1, 1).unwrap();
    let timing = BitTimingFd::new(nominal, data);
    assert_eq!(timing.nominal_bitrate(), 500_000);
    assert_eq!(timing.data_bitrate(), 1_000_000);
}

#[test]
fn standard_presets_include_common_rates() {
    let presets = standard_presets();
    assert_eq!(presets.get(&1_000_000).unwrap().bitrate(), 1_000_000);
    assert!(presets.contains_key(&125_000));
    assert!(presets.contains_key(&10_000));
}

#[test]
fn bitrate_is_clock_over_prescaler_and_quanta() {
    let bt = BitTiming::new(8_000_000, 1, 5, 2, 1, 1).unwrap();
    assert_eq!(bt.bitrate(), 1_000_000);
    let bt = BitTiming::new(16_000_000, 4, 13, 2, 1, 1).unwrap();
    assert_eq!(bt.bitrate(), 250_000);
}

#[test]
fn registers_round_trip_through_timing() {
    let bt = BitTiming::new(8_000_000, 3, 12, 3, 2, 3).unwrap();
    let (btr0, btr1) = bt.to_registers();
    let back = BitTiming::from_registers(8_000_000, btr0, btr1).unwrap();
    assert_eq!(back, bt);
}

#[test]
fn from_bitrate_and_segments_finds_the_prescaler() {
    let bt = BitTiming::from_bitrate_and_segments(8_000_000, 500_000, 13, 2, 1, 1).unwrap();
    assert_eq!(bt.brp, 1);
    assert_eq!(bt.bitrate(), 500_000);
}

#[test]
fn presets_run_at_their_rate_except_the_capped_slowest() {
    for (rate, timing) in standard_presets() {
        assert!(timing.validate().is_ok());
        if rate == 10_000 {
            // The prescaler is capped at 64, so the slowest preset runs faster.
            assert_eq!(timing.brp, 64);
            assert_eq!(timing.bitrate(), 15_625);
        } else {
            assert_eq!(timing.bitrate(), rate);
        }
    }
}

#[test]
fn valid_register_values_encode_back_to_themselves() {
    for (btr0, btr1) in [(0x00u8, 0x14u8), (0x43, 0x9c), (0x81, 0x25)] {
        let bt = BitTiming::from_registers(8_000_000, btr0, btr1).unwrap();
        assert_eq!(bt.to_registers(), (btr0, btr1));
    }
}

#[test]
fn e2e_cor_btm_001_bit_timing_from_bitrate_and_register_roundtrip() {
    let timing = BitTiming::from_bitrate_and_segments(8_000_000, 500_000, 13, 2, 1, 1)
        .expect("500 kbit/s timing should be valid");

    assert_eq!(timing.bitrate(), 500_000);
    let sample_point = 100.0 * (1.0 + timing.tseg1 as f64) / (1.0 + timing.tseg1 as f64 + timing.tseg2 as f64);
    assert!(sample_point >= 50.0);

    let (btr0, btr1) = timing.to_registers();
    let roundtrip = BitTiming::from_registers(timing.f_clock, btr0, btr1)
        .expect("register roundtrip should succeed");

    assert_eq!(roundtrip.brp, timing.brp);
    assert_eq!(roundtrip.tseg1, timing.tseg1);
    assert_eq!(roundtrip.tseg2, timing.tseg2);
    assert_eq!(roundtrip.sjw, timing.sjw);
    assert_eq!(roundtrip.nof_samples, timing.nof_samples);
    assert_eq!(roundtrip.bitrate(), timing.bitrate());
}
