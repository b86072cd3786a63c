//! Signal processing: timings to samples and back.

use hackrf_proxyd::float::Float;
use hackrf_proxyd::ook::{
    are_comparable, compare_bursts, duration_us, envelope, has_buckets, is_countable, levels,
    peak_magnitude, render_transmission, runs, split_bursts, synthesize, transmission_bytes,
    width_histogram, AmplitudeHistogram, Burst, BurstAccumulator, Detector, DetectorConfig, Run,
    BYTES_PER_SAMPLE,
};

const RATE: u32 = 2_000_000;

fn float(value: f64) -> Float {
    Float::from_bits(value.to_bits())
}

fn demod(iq: &[u8], min_us: u32) -> Vec<i64> {
    let mag = envelope(iq);
    let levels = levels(&mag, float(0.5));
    let runs = runs(&mag, levels.threshold, RATE, min_us);
    runs.iter().map(|r| if r.on { r.us } else { -r.us }).collect()
}

#[test]
fn timings_survive_a_synthesize_demodulate_round_trip() {
    let original = vec![500, -500, 250, -750, 1000, -500, 250];
    let iq = synthesize(&original, RATE, 100);
    assert_eq!(demod(&iq, 40), original);
}

#[test]
fn glitches_are_folded_without_breaking_alternation() {
    // A 20 µs space inside a mark is below the 40 µs deglitch floor, so the
    // surrounding marks must merge into one run rather than emitting two
    // marks in a row.
    let iq = synthesize(&[500, -20, 500, -500, 500], RATE, 100);
    let timings = demod(&iq, 40);

    assert_eq!(timings, vec![1020, -500, 500]);
    for pair in timings.windows(2) {
        assert!(
            pair[0].signum() != pair[1].signum(),
            "timings must alternate mark/space, got {timings:?}"
        );
    }
}

#[test]
fn bursts_split_on_long_gaps_and_drop_the_gap_itself() {
    let frame = [500i64, -500, 500];
    let mut timings = frame.to_vec();
    timings.push(-50_000);
    timings.extend_from_slice(&frame);

    let iq = synthesize(&timings, RATE, 100);
    let mag = envelope(&iq);
    let levels = levels(&mag, float(0.5));
    let bursts = split_bursts(&runs(&mag, levels.threshold, RATE, 40), 10_000, 2);

    assert_eq!(bursts, vec![frame.to_vec(), frame.to_vec()]);
}

#[test]
fn a_trailing_space_is_unobservable_so_bursts_end_on_a_mark() {
    // The frame's final -500 has no terminating edge: on air it is continuous
    // with the gap that follows, so the demodulator cannot see it. The
    // protocol decoder has to restore it from the symbol clock.
    let frame = [500i64, -500, 500, -500];
    let mut timings = frame.to_vec();
    timings.push(-50_000);
    timings.extend_from_slice(&frame);

    let iq = synthesize(&timings, RATE, 100);
    let mag = envelope(&iq);
    let levels = levels(&mag, float(0.5));
    let bursts = split_bursts(&runs(&mag, levels.threshold, RATE, 40), 10_000, 2);

    assert_eq!(bursts.len(), 2);
    assert_eq!(bursts[0], vec![500, -500, 500]);
    assert_eq!(*bursts[0].last().unwrap(), 500);
}

#[test]
fn a_lone_spike_does_not_capture_the_threshold() {
    // A realistic capture: mostly noise, a short weak burst, and one
    // full-scale outlier. The threshold must track the burst, not the outlier.
    let mut mag = vec![4u16; 9_500];
    mag.extend(std::iter::repeat_n(40u16, 500));
    mag.push(250);

    let levels = levels(&mag, float(0.5));

    assert_eq!(levels.noise_floor, 4);
    assert_eq!(levels.signal, 40, "the 250 outlier must not set the signal level");
    assert!(
        (4..40).contains(&levels.threshold),
        "threshold {} should sit between noise and signal",
        levels.threshold
    );
}

#[test]
fn a_capture_that_is_mostly_carrier_collapses_the_levels() {
    // Documents the limit of the median-as-noise-floor assumption: with
    // carrier present most of the time the two levels converge, which is what
    // lets the CLI warn instead of silently slicing at the wrong place.
    let mut mag = vec![4u16; 2_000];
    mag.extend(std::iter::repeat_n(40u16, 8_000));

    let levels = levels(&mag, float(0.5));

    assert_eq!(levels.noise_floor, levels.signal);
    assert!(levels.signal.saturating_sub(levels.noise_floor) < 10);
}

#[test]
fn identical_repeats_report_zero_deviation() {
    let bursts = vec![vec![500, -500, 500], vec![500, -500, 500]];
    let agreement = compare_bursts(&bursts).unwrap();

    assert!(agreement.same_edge_count);
    assert_eq!(agreement.max_deviation_us, 0);
}

#[test]
fn differing_repeats_are_reported() {
    let bursts = vec![vec![500, -500, 500], vec![500, -500, 620]];
    let agreement = compare_bursts(&bursts).unwrap();

    assert!(agreement.same_edge_count);
    assert_eq!(agreement.max_deviation_us, 120);
}

/// A detector with a short window, so tests do not have to synthesize a second
/// of signal to get past the learning window.
fn detector() -> Detector {
    let mut config = DetectorConfig::new(RATE);
    config.window_samples = 100_000; // 50 ms
    config.gap_us = 3_000;
    config.min_edges = 3;
    Detector::new(config)
}

/// Silence long enough to complete `windows` learning windows.
fn quiet(windows: usize) -> Vec<u8> {
    vec![0u8; 100_000 * windows * BYTES_PER_SAMPLE]
}

const FRAME: [i64; 5] = [500, -500, 500, -500, 500];

#[test]
fn a_burst_is_detected_once_the_first_window_has_been_measured() {
    let mut detector = detector();

    assert!(detector.push(&quiet(1)).is_empty(), "nothing before a threshold exists");
    assert!(detector.threshold().is_some(), "the first window arms the threshold");

    let mut bursts = detector.push(&synthesize(&FRAME, RATE, 100));
    bursts.extend(detector.push(&quiet(1)));

    assert_eq!(bursts.len(), 1);
    assert_eq!(bursts[0].timings, FRAME);
    assert_eq!(bursts[0].peak, 100);
}

#[test]
fn the_first_burst_after_a_quiet_band_is_not_missed() {
    // The reason the threshold is parked above the noise rather than learned
    // from the signal: a band can be silent for hours and the very next
    // keypress still has to be received, in the same window it arrives in.
    let mut detector = detector();
    detector.push(&quiet(4));

    let mut iq = synthesize(&FRAME, RATE, 100);
    iq.extend(quiet(1));

    assert_eq!(detector.push(&iq).len(), 1, "the first burst must not be swallowed");
}

#[test]
fn pure_noise_produces_no_bursts() {
    let mut detector = detector();
    // Noise that jitters around a floor, never a clean carrier.
    let noise: Vec<u8> =
        (0..400_000 * BYTES_PER_SAMPLE).map(|i| ((i * 7919) % 11) as u8).collect();

    let bursts = detector.push(&noise);

    assert!(bursts.is_empty(), "noise must not slice into frames: {bursts:?}");
}

#[test]
fn a_burst_is_emitted_on_the_gap_without_waiting_for_the_next_one() {
    // The streaming property the offline splitter does not need: once the
    // silence outruns the gap the frame is delivered, rather than waiting for
    // a carrier that may never return.
    let mut detector = detector();
    detector.push(&quiet(1));

    detector.push(&synthesize(&FRAME, RATE, 100));
    // Exactly one gap of silence, and no more.
    let bursts = detector.push(&synthesize(&[-4_000], RATE, 100));

    assert_eq!(bursts.len(), 1, "the gap alone must complete the burst");
    assert_eq!(bursts[0].timings, FRAME);
}

#[test]
fn chunking_does_not_change_the_result() {
    // Runs, glitches and gaps all straddle transfer boundaries in a live
    // stream; feeding the same signal in small pieces must not change what
    // comes out.
    let mut signal = quiet(1);
    signal.extend(synthesize(&FRAME, RATE, 100));
    signal.extend(quiet(1));

    let whole = detector().push(&signal);

    let mut piecewise = detector();
    let mut pieces = Vec::new();
    for chunk in signal.chunks(777 * BYTES_PER_SAMPLE) {
        pieces.extend(piecewise.push(chunk));
    }

    assert_eq!(whole.len(), 1);
    assert_eq!(whole, pieces);
}

#[test]
fn streaming_folds_glitches_exactly_as_the_offline_path_does() {
    let timings = [500i64, -20, 500, -500, 500];
    let mut signal = quiet(1);
    signal.extend(synthesize(&timings, RATE, 100));
    signal.extend(quiet(1));

    let streamed = detector().push(&signal);

    let magnitude = envelope(&signal);
    let levels = levels(&magnitude, float(0.5));
    let offline = split_bursts(&runs(&magnitude, levels.threshold, RATE, 40), 3_000, 3);

    assert_eq!(streamed.len(), 1);
    assert_eq!(streamed[0].timings, vec![1020, -500, 500]);
    assert_eq!(streamed[0].timings, offline[0]);
}

#[test]
fn negative_widths_bucket_downwards() {
    // -510 µs belongs with -550..-501, not with -500..-451; getting this wrong
    // would smear mark and space clusters together in the histogram.
    let hist = width_histogram(&[-510, -500, 500, 510], 50);

    assert_eq!(hist.get(&-550), Some(&1));
    assert_eq!(hist.get(&-500), Some(&1));
    assert_eq!(hist.get(&500), Some(&2));
}

#[test]
fn the_envelope_is_the_sum_of_both_components() {
    assert_eq!(envelope(&[3, 4, 0xFF, 0x80, 7]), vec![7, 129], "an odd byte is no sample");
    assert_eq!(envelope(&[0x80, 0x80]), vec![256], "both components at their lowest");
    assert_eq!(peak_magnitude(&[3, 4, 0xFF, 0x80, 1, 1]), 129);
    assert_eq!(peak_magnitude(&[]), 0);
}

#[test]
fn percentiles_walk_the_distribution() {
    let mut histogram = AmplitudeHistogram::new();
    assert_eq!(histogram.percentile(float(0.5)), 0, "nothing was seen yet");
    for magnitude in 0..100u16 {
        histogram.add_magnitude(magnitude);
    }
    assert_eq!(histogram.percentile(float(0.5)), 49);
    assert_eq!(histogram.percentile(float(0.999)), 99);
    assert_eq!(histogram.peak(), 99);

    let levels = histogram.levels(float(0.25));
    assert_eq!((levels.noise_floor, levels.signal, levels.threshold), (49, 99, 62));

    let mut iq = AmplitudeHistogram::new();
    iq.add_iq(&[10, 10, 20, 20]);
    assert_eq!(iq.peak(), 40);
}

#[test]
fn a_burst_needs_its_minimum_of_edges() {
    let run = |on, us| Run { on, us };
    let runs = [run(true, 500), run(false, 20_000), run(true, 500), run(false, 500), run(true, 400)];

    assert_eq!(split_bursts(&runs, 10_000, 2), vec![vec![500, -500, 400]]);
    assert_eq!(split_bursts(&runs, 10_000, 1), vec![vec![500], vec![500, -500, 400]]);
    assert_eq!(split_bursts(&runs, 20_000, 2).len(), 1);
    assert_eq!(
        split_bursts(&runs, 20_001, 2),
        vec![vec![500, -20_000, 500, -500, 400]],
        "a space ends a burst from the gap's length on"
    );
}

#[test]
fn a_burst_of_too_many_edges_is_dropped_and_counted() {
    let mut accumulator = BurstAccumulator::new(10_000, 2);
    for k in 0..4097 {
        assert_eq!(accumulator.push(Run { on: k % 2 == 0, us: 500 }), None);
    }
    assert_eq!(accumulator.overflows(), 1);
    assert!(!accumulator.is_active(), "what was gathered is gone");

    assert_eq!(accumulator.push(Run { on: true, us: 300 }), None);
    assert_eq!(accumulator.push(Run { on: false, us: 200 }), None);
    assert_eq!(accumulator.push(Run { on: true, us: 100 }), None);
    assert!(accumulator.is_active());
    assert_eq!(
        accumulator.push(Run { on: false, us: 10_000 }),
        Some(vec![300, -200, 100]),
        "the next burst is heard all the same"
    );
    assert_eq!(accumulator.finish(), None);
}

#[test]
fn the_threshold_stays_above_the_noise() {
    let mut config = DetectorConfig::new(RATE);
    config.window_samples = 1_000;
    let mut detector = Detector::new(config);
    assert_eq!(detector.threshold(), None);

    // Half the window at 4, half at 8: the noise spreads from 8 at the
    // quartile over 8 at the median, so that only its floor counts.
    let mut window = [4u8, 0].repeat(400);
    window.extend([8u8, 0].repeat(600));
    assert!(detector.push(&window).is_empty());
    let learnt = detector.threshold().expect("a window was measured");
    assert!(learnt >= 8, "threshold {learnt} lies within the noise");
    assert_eq!(detector.overflows(), 0);
}

#[test]
fn a_live_burst_carries_its_own_peak() {
    let mut detector = detector();
    detector.push(&quiet(1));
    let mut iq = synthesize(&FRAME, RATE, 60);
    iq.extend(synthesize(&[-4_000], RATE, 60));
    iq.extend(synthesize(&FRAME, RATE, 90));
    iq.extend(synthesize(&[-4_000], RATE, 90));
    assert_eq!(
        detector.push(&iq),
        vec![
            Burst { timings: FRAME.to_vec(), peak: 60 },
            Burst { timings: FRAME.to_vec(), peak: 90 },
        ]
    );
}

#[test]
fn a_dropped_burst_takes_its_peak_with_it() {
    let mut config = DetectorConfig::new(RATE);
    config.window_samples = 100_000;
    config.min_edges = 3;
    let mut detector = Detector::new(config);
    assert!(detector.push(&quiet(1)).is_empty());
    // A lone mark is no burst, however loud.
    assert!(detector.push(&synthesize(&[500, -4_000], RATE, 120)).is_empty());
    assert_eq!(
        detector.push(&synthesize(&[500, -500, 500, -500, 500, -4_000], RATE, 60)),
        vec![Burst { timings: FRAME.to_vec(), peak: 60 }]
    );
}

#[test]
fn a_spike_before_or_after_a_burst_is_not_its_peak() {
    let mut detector = detector();
    detector.push(&quiet(1));
    // Too short to be a mark, and within the gap of the burst that follows.
    let mut iq = synthesize(&[20, -1_000], RATE, 127);
    iq.extend(synthesize(&FRAME, RATE, 60));
    // The silence that ends it is interrupted by another one.
    iq.extend(synthesize(&[-2_000], RATE, 60));
    iq.extend(synthesize(&[20], RATE, 127));
    iq.extend(synthesize(&[-2_000], RATE, 60));
    iq.extend(synthesize(&FRAME, RATE, 90));
    iq.extend(synthesize(&[-4_000], RATE, 90));
    assert_eq!(
        detector.push(&iq),
        vec![
            Burst { timings: FRAME.to_vec(), peak: 60 },
            Burst { timings: FRAME.to_vec(), peak: 90 },
        ]
    );
}

#[test]
fn a_transmission_is_the_frame_with_gaps_between() {
    let frame = synthesize(&[500, -250], RATE, 100);
    let gap = synthesize(&[-1_000], RATE, 100);
    assert_eq!(frame.len(), 1500 * BYTES_PER_SAMPLE);
    assert_eq!((frame[0], frame[1]), (100, 0), "a mark is a constant level on one component");
    assert_eq!(frame[1000 * BYTES_PER_SAMPLE], 0, "a space is silence");

    let sent = render_transmission(&[500, -250], 2, 1_000, RATE, 100);
    let mut expected = frame.clone();
    for _ in 0..2 {
        expected.extend_from_slice(&gap);
        expected.extend_from_slice(&frame);
    }
    assert_eq!(sent, expected);
    assert_eq!(transmission_bytes(&[500, -250], 2, 1_000, RATE), Some(expected.len()));
    assert_eq!(transmission_bytes(&[i64::MAX, i64::MAX], u32::MAX, 0, 20_000_000), None);
}

#[test]
fn timings_round_to_whole_samples() {
    // At 2.4 Msps a microsecond is 2.4 samples: 13 µs are 31.2 and 14 are 33.6.
    assert_eq!(synthesize(&[13], 2_400_000, 100).len(), 31 * BYTES_PER_SAMPLE);
    assert_eq!(synthesize(&[14], 2_400_000, 100).len(), 34 * BYTES_PER_SAMPLE);
    assert_eq!(synthesize(&[-14], 2_400_000, 100).len(), 34 * BYTES_PER_SAMPLE);
}

#[test]
fn durations_add_up_without_signs() {
    assert_eq!(duration_us(&[500, -250, 100]), 850);
    assert_eq!(duration_us(&[]), 0);
}

#[test]
fn agreement_looks_at_every_repeat() {
    assert!(compare_bursts(&[]).is_none());

    let alone = compare_bursts(&[vec![500]]).unwrap();
    assert!(alone.same_edge_count);
    assert_eq!(alone.max_deviation_us, 0);

    let uneven = compare_bursts(&[vec![500, -500, 500], vec![500]]).unwrap();
    assert!(!uneven.same_edge_count);

    let third = compare_bursts(&[vec![500, -500], vec![500, -510], vec![470, -500]]).unwrap();
    assert_eq!(third.max_deviation_us, 30);
}

#[test]
fn what_cannot_be_counted_is_known_beforehand() {
    assert!(is_countable(&[i64::MAX]));
    assert!(!is_countable(&[i64::MAX, -1]));
    assert!(!is_countable(&[i64::MIN]));
    assert!(are_comparable(&[vec![i64::MAX], vec![0]]));
    assert!(!are_comparable(&[vec![i64::MAX], vec![-1]]));
    assert!(has_buckets(&[-510, 500], 50));
    assert!(has_buckets(&[-510, 500], -50));
    assert!(!has_buckets(&[500], 0));
    assert!(!has_buckets(&[i64::MIN + 1], 50));
    assert!(!has_buckets(&[i64::MIN], -1));
    assert_eq!(width_histogram(&[-510, 510], -50).get(&-550), Some(&1));
}
