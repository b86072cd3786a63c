//! What is asked of the hardware, and what is made of what it delivers.

use hackrf_proxyd::float::Float;
use hackrf_proxyd::radio::{
    description, is_hackrf, open_failure, pad_to_alignment, scan_advice, transfer, validate_rx_gains,
    validate_sample_rate, validate_tx_gain, whole_samples, BandMeter, BandReading, Call,
    CaptureMeter, CaptureParams, CaptureSummary, Custody, DeviceSettings, LevelReport, RadioConfig,
    ScanParams, Sweep, SweepAction, Transfer, TransmitParams, Unsupported, TRANSFER_SIZE,
    XFER_ALIGN,
};

fn float(value: f64) -> Float {
    Float::from_bits(value.to_bits())
}

#[test]
fn rx_gain_validation_matches_hardware_steps() {
    assert!(validate_rx_gains(40, 62).is_ok());
    assert!(validate_rx_gains(0, 0).is_ok());
    // Silently rounded down to 8 dB by the driver, so reject it outright.
    assert!(validate_rx_gains(12, 20).is_err());
    assert!(validate_rx_gains(48, 20).is_err());
    assert!(validate_rx_gains(8, 21).is_err());
}

#[test]
fn tx_gain_and_sample_rate_bounds() {
    assert!(validate_tx_gain(47).is_ok());
    assert!(validate_tx_gain(48).is_err());
    assert!(validate_sample_rate(2_000_000).is_ok());
    assert!(validate_sample_rate(1_999_999).is_err());
    assert!(validate_sample_rate(20_000_001).is_err());
}

#[test]
fn padding_rounds_up_to_a_transfer_boundary() {
    let mut samples = vec![1u8; XFER_ALIGN + 1];
    pad_to_alignment(&mut samples);
    assert_eq!(samples.len(), XFER_ALIGN * 2);
    assert_eq!(samples[XFER_ALIGN], 1);
    assert_eq!(samples[XFER_ALIGN + 1], 0);

    let mut aligned = vec![1u8; XFER_ALIGN];
    pad_to_alignment(&mut aligned);
    assert_eq!(aligned.len(), XFER_ALIGN);
}

#[test]
fn refusals_name_what_was_asked_for() {
    assert_eq!(
        validate_rx_gains(12, 20).unwrap_err().to_string(),
        "LNA gain must be 0..=40 dB in 8 dB steps (got 12)"
    );
    assert_eq!(
        validate_rx_gains(8, 64).unwrap_err().to_string(),
        "VGA gain must be 0..=62 dB in 2 dB steps (got 64)"
    );
    assert_eq!(
        validate_tx_gain(48).unwrap_err().to_string(),
        "TX VGA gain must be 0..=47 dB (got 48)"
    );
    assert_eq!(
        validate_sample_rate(1_000_000).unwrap_err().to_string(),
        "sample rate must be 2–20 Msps (got 1000000)"
    );
    assert_eq!(Unsupported::NoFrequencies.to_string(), "no frequencies to scan");
    assert_eq!(Unsupported::NothingToTransmit.to_string(), "nothing to transmit");
}

#[test]
fn parameters_are_judged_before_the_radio_is_opened() {
    let capture = CaptureParams {
        frequency_hz: 315_000_000,
        sample_rate: 2_000_000,
        lna_db: 40,
        vga_db: 40,
        amp_enable: true,
        seconds: float(5.0),
    };
    assert_eq!(capture.validate(), Ok(()));
    assert_eq!(
        CaptureParams { lna_db: 41, sample_rate: 1, ..capture }.validate(),
        Err(Unsupported::LnaGain { lna_db: 41 })
    );
    assert_eq!(
        CaptureParams { sample_rate: 1, ..capture }.validate(),
        Err(Unsupported::SampleRate { sample_rate: 1 })
    );
    assert_eq!(
        capture.config(),
        RadioConfig {
            lna_db: 40,
            vga_db: 40,
            txvga_db: 0,
            amp_enable: true,
            antenna_enable: false,
            frequency_hz: 315_000_000,
            sample_rate_hz: 2_000_000,
            sample_rate_div: 1,
        }
    );

    let scan = ScanParams {
        frequencies: vec![315_000_000, 433_920_000],
        sample_rate: 2_000_000,
        lna_db: 24,
        vga_db: 20,
        amp_enable: false,
        dwell_seconds: float(0.3),
        passes: 40,
    };
    assert_eq!(scan.validate(), Ok(()));
    assert_eq!(scan.config().frequency_hz, 315_000_000);
    assert_eq!(
        ScanParams { frequencies: vec![], ..scan }.validate(),
        Err(Unsupported::NoFrequencies)
    );

    let sending = TransmitParams {
        frequency_hz: 315_000_000,
        sample_rate: 2_000_000,
        txvga_db: 40,
        amp_enable: false,
    };
    assert_eq!(sending.validate(&[0; 512]), Ok(()));
    assert_eq!(sending.validate(&[]), Err(Unsupported::NothingToTransmit));
    assert_eq!(
        TransmitParams { txvga_db: 48, ..sending }.validate(&[]),
        Err(Unsupported::TxGain { txvga_db: 48 })
    );
    assert_eq!(sending.config().txvga_db, 40);
    assert_eq!(sending.config().lna_db, 0);

    let settings = DeviceSettings { sample_rate: 2_000_000, lna_db: 40, vga_db: 41, rx_amp: true };
    assert_eq!(settings.validate(), Err(Unsupported::VgaGain { vga_db: 41 }));
    let config = settings.config(433_920_000, 22, false);
    assert_eq!((config.lna_db, config.vga_db, config.txvga_db), (40, 41, 22));
    assert!(!config.amp_enable);
}

#[test]
fn seconds_hold_whole_samples() {
    assert_eq!(whole_samples(float(0.3), 2_000_000), 600_000);
    assert_eq!(whole_samples(float(5.0), 20_000_000), 100_000_000);
    assert_eq!(whole_samples(float(1.999_999e-6), 2_000_000), 3);
    assert_eq!(whole_samples(float(-1.0), 2_000_000), 0);
    assert_eq!(whole_samples(float(f64::NAN), 2_000_000), 0);
    assert_eq!(whole_samples(float(f64::INFINITY), 2_000_000), usize::MAX);
}

#[test]
fn the_family_is_known_by_its_ids() {
    assert!(is_hackrf(0x1d50, 0x6089));
    assert!(is_hackrf(0x1d50, 0x604b));
    assert!(is_hackrf(0x1d50, 0xcc15));
    assert!(!is_hackrf(0x1d50, 0x6088));
    assert!(!is_hackrf(0x1d51, 0x6089));
}

#[test]
fn a_radio_that_may_not_be_opened_is_not_a_missing_one() {
    assert_eq!(open_failure(&[]), "no HackRF found — check that it is plugged in");
    let refused = open_failure(&[(1, 42), (2, 3)]);
    assert!(refused.starts_with("HackRF is present at /dev/bus/usb/001/042 but could not be"));
    assert!(refused.ends_with("and the process must run as root"));
    assert!(open_failure(&[(255, 7)]).contains("/dev/bus/usb/255/007 "));
    assert_eq!(description(2, "2024.02.1"), "board 2, firmware 2024.02.1");
}

#[test]
fn a_transmission_is_written_in_transfers_and_flushed_with_silence() {
    let len = TRANSFER_SIZE + 512;
    assert_eq!(transfer(len, 0), Some(Transfer::Samples { start: 0, end: TRANSFER_SIZE }));
    assert_eq!(transfer(len, 1), Some(Transfer::Samples { start: TRANSFER_SIZE, end: len }));
    for index in 2..6 {
        assert_eq!(transfer(len, index), Some(Transfer::Silence));
    }
    assert_eq!(transfer(len, 6), None);

    let whole = 2 * TRANSFER_SIZE;
    assert_eq!(transfer(whole, 1), Some(Transfer::Samples { start: TRANSFER_SIZE, end: whole }));
    assert_eq!(transfer(whole, 2), Some(Transfer::Silence));
}

#[test]
fn a_capture_reports_its_level_once_a_second() {
    let mut meter = CaptureMeter::new(40_000, 10_000);
    assert_eq!(meter.wanted(), Some(TRANSFER_SIZE));
    let mut loud = vec![0u8; TRANSFER_SIZE];
    loud[0] = 0x80;
    loud[1] = 0x7F;
    assert_eq!(
        meter.push(&loud),
        Some(LevelReport { written: TRANSFER_SIZE, peak: 255, clipping: true })
    );
    assert_eq!(
        meter.push(&[10; 10_000]),
        None,
        "half a second has passed since the last report"
    );
    assert_eq!(
        meter.push(&[5; 10_000]),
        Some(LevelReport { written: TRANSFER_SIZE + 20_000, peak: 20, clipping: false })
    );
    assert_eq!(meter.wanted(), Some(80_000 - TRANSFER_SIZE - 20_000));
    meter.push(&vec![0; 80_000 - TRANSFER_SIZE - 20_000]);
    assert_eq!(meter.wanted(), None);
    assert_eq!(meter.summary(), CaptureSummary { samples: 40_000, peak: 255, weak: false });

    let mut silent = CaptureMeter::new(1, 2_000_000);
    silent.push(&[9, 10]);
    assert_eq!(silent.summary(), CaptureSummary { samples: 1, peak: 19, weak: true });
}

#[test]
fn an_overloaded_band_is_told_from_a_strong_one() {
    let mut strong = BandMeter::new(1_000);
    assert_eq!(strong.wanted(), Some(2_000));
    strong.push(&[100, 60].repeat(1_000));
    assert_eq!(strong.wanted(), None);
    assert_eq!(strong.reading(), BandReading { peak: 160, signal: 160, saturated: false });

    let mut overloaded = BandMeter::new(1_000);
    overloaded.push(&[0x80, 0x80].repeat(1_000));
    assert_eq!(overloaded.reading(), BandReading { peak: 256, signal: 256, saturated: true });

    assert!(scan_advice(1).starts_with("Saturated: the 99.9th percentile reached full scale"));
    assert!(scan_advice(0).starts_with("A transmitting remote close to the antenna"));
}

#[test]
fn a_dead_handle_is_let_go() {
    let nothing = Custody { radio: false, rx: false };
    let receiving = nothing.after(Call::StartRx, true);
    assert_eq!(receiving, Custody { radio: true, rx: true });
    assert_eq!(receiving.after(Call::Read, true), receiving);
    assert_eq!(receiving.after(Call::Read, false), nothing);
    assert_eq!(receiving.after(Call::Stop, true), Custody { radio: true, rx: false });
    assert_eq!(nothing.after(Call::Stop, true), nothing, "there is nothing to stop");
    assert_eq!(nothing.after(Call::Describe, true), Custody { radio: true, rx: false });
    assert_eq!(receiving.after(Call::Transmit, false), nothing);
}

#[test]
fn a_scan_sweeps_the_bands_in_order() {
    let mut sweep = Sweep::new(vec![315_000_000, 433_920_000], 2, 20_000);
    let mut seen = Vec::new();
    let mut bytes_read = 0;
    while let Some(action) = sweep.next() {
        match action {
            SweepAction::Tune { pass, band, frequency_hz } => {
                seen.push((pass, band, frequency_hz));
                sweep.advance(&[]);
                assert_eq!(
                    sweep.next(),
                    Some(SweepAction::Discard { bytes: TRANSFER_SIZE }),
                    "the retune transient is thrown away"
                );
                bytes_read = 0;
            }
            SweepAction::Discard { .. } => sweep.advance(&[0x80; 8]),
            SweepAction::Read { bytes } => {
                let loud = seen.len() % 2 == 0;
                bytes_read += bytes;
                sweep.advance(&vec![if loud { 0x80 } else { 10 }; bytes]);
            }
            SweepAction::Show { reading, last } => {
                assert_eq!(bytes_read, 40_000);
                let loud = seen.len() % 2 == 0;
                assert_eq!(last, loud);
                assert_eq!(
                    reading,
                    if loud {
                        BandReading { peak: 256, signal: 256, saturated: true }
                    } else {
                        BandReading { peak: 20, signal: 20, saturated: false }
                    }
                );
                sweep.advance(&[]);
            }
        }
    }
    assert_eq!(
        seen,
        vec![(1, 0, 315_000_000), (1, 1, 433_920_000), (2, 0, 315_000_000), (2, 1, 433_920_000)]
    );
    assert_eq!(sweep.saturated_bands(), 2);
}

#[test]
fn a_scan_of_nothing_is_over_at_once() {
    assert_eq!(Sweep::new(vec![], 3, 100).next(), None);
    assert_eq!(Sweep::new(vec![315_000_000], 0, 100).next(), None);
    let mut brief = Sweep::new(vec![315_000_000], 1, 0);
    brief.advance(&[]);
    brief.advance(&[]);
    assert_eq!(
        brief.next(),
        Some(SweepAction::Show {
            reading: BandReading { peak: 0, signal: 0, saturated: false },
            last: true,
        })
    );
}
