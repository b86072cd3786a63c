//! The WebSocket protocol's types and validation.

use hackrf_proxyd::wire::{
    default_gap_us, default_version, is_tunable, out_of_range_text, Counters, DeviceState, Invalid,
    Message, MessagePayload, Transmit, MAX_AIR_TIME_US, MAX_TIMINGS, PROTOCOL_VERSION,
};

fn transmit(timings: Vec<i64>) -> Transmit {
    Transmit {
        frequency: 315_000_000,
        timings,
        repeat: 0,
        gap_us: 10_000,
        txvga_db: None,
        amp: false,
    }
}

#[test]
fn valid_requests_pass() {
    assert_eq!(transmit(vec![500, -500, 500]).validate(), Ok(()));
}

#[test]
fn air_time_counts_repeats_and_gaps() {
    let request = Transmit { repeat: 9, gap_us: 4_150, ..transmit(vec![81_100]) };

    // Ten frames of 81.1 ms plus nine gaps of 4.15 ms.
    assert_eq!(request.air_time_us(), 811_000 + 9 * 4_150);
    assert_eq!(request.validate(), Ok(()));
}

#[test]
fn a_request_that_would_hold_the_band_too_long_is_refused() {
    // The radio is half-duplex: a long transmission is a long deafness, and
    // this is a shared proxy.
    let hog = Transmit { repeat: 100_000, ..transmit(vec![500_000]) };

    assert!(matches!(hog.validate(), Err(Invalid::AirTimeTooLong { .. })));
}

#[test]
fn nonsense_requests_are_refused() {
    assert_eq!(transmit(vec![]).validate(), Err(Invalid::Empty));
    assert_eq!(transmit(vec![500, 0, 500]).validate(), Err(Invalid::ZeroTiming));
    assert!(matches!(
        Transmit { frequency: 315, ..transmit(vec![500]) }.validate(),
        Err(Invalid::FrequencyOutOfRange { .. })
    ));
    assert!(matches!(
        Transmit { txvga_db: Some(60), ..transmit(vec![500]) }.validate(),
        Err(Invalid::GainTooHigh { .. })
    ));
}

#[test]
fn air_time_of_an_absurd_request_saturates_instead_of_wrapping() {
    // A hostile or buggy client must get a refusal, not an overflow that wraps
    // into a small number and sails through validation.
    let absurd = Transmit { repeat: u32::MAX, ..transmit(vec![i64::MAX, i64::MAX]) };

    assert!(matches!(absurd.validate(), Err(Invalid::AirTimeTooLong { .. })));
}

#[test]
fn the_limits_themselves_are_allowed() {
    assert_eq!(transmit(vec![1; MAX_TIMINGS]).validate(), Ok(()));
    assert_eq!(
        transmit(vec![1; MAX_TIMINGS + 1]).validate(),
        Err(Invalid::TooManyTimings { count: 8193 })
    );
    assert_eq!(transmit(vec![MAX_AIR_TIME_US]).validate(), Ok(()));
    assert_eq!(
        transmit(vec![-MAX_AIR_TIME_US, 1]).validate(),
        Err(Invalid::AirTimeTooLong { duration_us: 30_000_001 })
    );
    assert_eq!(Transmit { txvga_db: Some(47), ..transmit(vec![1]) }.validate(), Ok(()));
    assert_eq!(Transmit { frequency: 1_000_000, ..transmit(vec![1]) }.validate(), Ok(()));
    assert_eq!(Transmit { frequency: 6_000_000_000, ..transmit(vec![1]) }.validate(), Ok(()));
    assert!(!is_tunable(999_999));
    assert!(!is_tunable(6_000_000_001));
}

#[test]
fn the_lowest_timing_saturates_too() {
    assert_eq!(transmit(vec![i64::MIN]).air_time_us(), i64::MAX);
    assert_eq!(
        Transmit { repeat: 1, gap_us: 7, ..transmit(vec![i64::MIN]) }.air_time_us(),
        i64::MAX
    );
}

#[test]
fn refusals_are_told_in_words() {
    assert_eq!(Invalid::Empty.to_string(), "no timings to transmit");
    assert_eq!(Invalid::ZeroTiming.to_string(), "a timing of zero has no meaning");
    assert_eq!(
        Invalid::TooManyTimings { count: 9_000 }.to_string(),
        "9000 timings exceeds the 8192 limit"
    );
    assert_eq!(
        Invalid::FrequencyOutOfRange { frequency: 315 }.to_string(),
        "315 Hz is outside the radio's 1 MHz–6 GHz range"
    );
    assert_eq!(out_of_range_text(315), "315 Hz is outside the radio's 1 MHz–6 GHz range");
    assert_eq!(
        Invalid::GainTooHigh { txvga_db: 60 }.to_string(),
        "TX VGA gain 60 dB exceeds the 47 dB maximum"
    );
    assert_eq!(
        Invalid::AirTimeTooLong { duration_us: 31_250_000 }.to_string(),
        "31.2 s of air time exceeds the 30.0 s limit"
    );
}

#[test]
fn seconds_are_written_as_the_formatter_writes_them() {
    for duration_us in [
        30_000_001i64,
        30_049_999,
        30_050_000,
        30_050_001,
        30_150_000,
        30_250_000,
        30_350_000,
        99_999_999,
        1_234_567_890_123,
        9_007_199_254_740_993,
        i64::MAX,
    ] {
        let expected = format!(
            "{:.1} s of air time exceeds the {:.1} s limit",
            duration_us as f64 / 1e6,
            MAX_AIR_TIME_US as f64 / 1e6
        );
        assert_eq!(Invalid::AirTimeTooLong { duration_us }.to_string(), expected);
    }
}

#[test]
fn a_reply_carries_the_request_id_and_an_event_carries_none() {
    let reply =
        Message::reply(Some("abc".into()), MessagePayload::Transmitted { duration_us: 1000 });
    assert_eq!(reply.v, PROTOCOL_VERSION);
    assert_eq!(reply.id.as_deref(), Some("abc"));
    assert!(matches!(reply.payload, MessagePayload::Transmitted { duration_us: 1000 }));

    let event = Message::event(MessagePayload::DeviceState { state: DeviceState::Receiving });
    assert_eq!(event.v, PROTOCOL_VERSION);
    assert_eq!(event.id, None);
    assert!(matches!(
        event.payload,
        MessagePayload::DeviceState { state: DeviceState::Receiving }
    ));
}

#[test]
fn what_a_request_leaves_out_has_a_default() {
    assert_eq!(default_version(), PROTOCOL_VERSION);
    assert_eq!(default_gap_us(), 10_000);
    let counters = Counters::default();
    assert_eq!(
        counters,
        Counters { rx_frames: 0, transmissions: 0, burst_overflows: 0, device_faults: 0 }
    );
}
