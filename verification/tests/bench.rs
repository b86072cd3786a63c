//! The bench tools.

use hackrf_proxyd::bench::files::{
    burst_file, bursts_file, decode_bursts, decode_file, decode_read, list_bursts, prepare,
    prepare_file, prepare_read, verdict, Undecodable, Unsendable, AMPLITUDE,
};
use hackrf_proxyd::bench::frequency::{resolve, split_frequency, strip};
use hackrf_proxyd::bench::report::report;
use hackrf_proxyd::bench::{
    barely_rises, compare, demodulate, is_static, replay, select, DemodSettings, FrequencyFault,
    Scale,
};
use hackrf_proxyd::float::Float;
use hackrf_proxyd::ook::{render_transmission, synthesize, BurstAgreement, DetectorConfig, Levels};
use hackrf_proxyd::proflame::{Frame, Keys, INTER_FRAME_GAP_US};

fn float(value: f64) -> Float {
    Float::from_bits(value.to_bits())
}

/// A typed frequency, as the command line takes it.
fn parse_frequency(input: &str) -> Result<u64, String> {
    let (digits, scale) = split_frequency(input);
    let value: f64 = strip(&digits).parse().map_err(|_| format!("not a frequency: {input}"))?;
    resolve(float(value), scale).map_err(|fault| fault.to_text(input, &digits))
}

#[test]
fn frequencies_take_a_suffix() {
    assert_eq!(parse_frequency("315M"), Ok(315_000_000));
    assert_eq!(parse_frequency("433.92MHz"), Ok(433_920_000));
    assert_eq!(parse_frequency("315000000"), Ok(315_000_000));
    assert_eq!(parse_frequency(" 2.4 gHz "), Ok(2_400_000_000));
    assert_eq!(parse_frequency("315000k"), Ok(315_000_000));
    assert_eq!(parse_frequency("1000000 Hz"), Ok(1_000_000));
    assert_eq!(parse_frequency("6G"), Ok(6_000_000_000));
    assert_eq!(parse_frequency("3.15E2 m"), Ok(315_000_000));
    assert_eq!(parse_frequency("\u{2003}315M\u{a0}"), Ok(315_000_000));
}

#[test]
fn a_bare_number_is_hertz_and_mostly_a_mistake() {
    assert_eq!(
        parse_frequency("315"),
        Err("315 is 315 Hz, below the HackRF's 1 MHz minimum — \
             bare numbers are hertz, so write 315M for megahertz"
            .to_string())
    );
    assert_eq!(
        parse_frequency("6.1GHz"),
        Err("6.1GHz is above the HackRF's 6 GHz maximum".to_string())
    );
    for nonsense in ["", "M", "hz", "abc", "-315M", "0M", "nan", "inf", "1e400"] {
        assert_eq!(
            parse_frequency(nonsense),
            Err(format!("not a frequency: {nonsense}")),
            "{nonsense:?}"
        );
    }
}

#[test]
fn a_frequency_is_taken_apart_in_lower_case() {
    assert_eq!(split_frequency(" 433.92MHz"), ("433.92".to_string(), Scale::Megahertz));
    assert_eq!(split_frequency("1E9 HZ"), ("1e9".to_string(), Scale::Hertz));
    assert_eq!(split_frequency("2 G"), ("2 ".to_string(), Scale::Gigahertz));
    assert_eq!(split_frequency("hz"), (String::new(), Scale::Hertz));
    assert_eq!(split_frequency("ÄK"), ("Ä".to_string(), Scale::Kilohertz));
    assert_eq!(resolve(float(0.4), Scale::Hertz), Err(FrequencyFault::TooLow { hz: 0 }));
}

#[test]
fn white_space_is_what_it_is_everywhere() {
    for c in char::MIN..=char::MAX {
        let text = format!("{c}x{c}");
        assert_eq!(strip(&text), text.trim(), "U+{:04X}", c as u32);
        if c as u32 > 0x4000 {
            break;
        }
    }
}

const KEYS: Keys = Keys { k1: 0x0a, k2: 0x86 };

fn frame(cmd2: u8) -> Frame {
    Frame { serial1: 0x00, serial2: 0x86, version: 0x02, cmd1: 0x01, cmd2 }
}

#[test]
fn a_file_of_one_remote_is_consistent() {
    let bursts = vec![
        frame(0x33).to_timings(KEYS),
        frame(0x32).to_timings(KEYS),
        vec![500, -500],
        frame(0x32).to_timings(KEYS),
        frame(0x31).to_timings(KEYS),
    ];
    let findings = report(&bursts);

    assert_eq!(findings.decoded.len(), 5);
    assert!(!findings.decoded[2].is_clean());
    assert_eq!(
        findings.clean,
        vec![(frame(0x33), KEYS), (frame(0x32), KEYS), (frame(0x32), KEYS), (frame(0x31), KEYS)]
    );
    let ranking: Vec<_> = findings.distinct.iter().map(|r| (r.blocks, r.count)).collect();
    assert_eq!(
        ranking,
        vec![
            (frame(0x32).blocks(KEYS), 2),
            (frame(0x31).blocks(KEYS), 1),
            (frame(0x33).blocks(KEYS), 1),
        ],
        "the most frequent first, and then the lowest"
    );
    assert_eq!((findings.k1, findings.k2), (vec![0x0a], vec![0x86]));
    assert!(findings.consistent);
}

#[test]
fn a_second_remote_shows_in_the_constants() {
    let other = Keys { k1: 0x09, ..KEYS };
    let findings = report(&vec![frame(0x32).to_timings(KEYS), frame(0x32).to_timings(other)]);
    assert_eq!(findings.k1, vec![0x09, 0x0a]);
    assert_eq!(findings.k2, vec![0x86]);
    assert_eq!(findings.distinct.len(), 2);
    assert!(!findings.consistent);
}

#[test]
fn a_file_without_clean_frames_proves_nothing() {
    let findings = report(&vec![vec![500, -500]]);
    assert!(findings.clean.is_empty());
    assert!(!findings.consistent);
    assert!(!report(&vec![]).consistent);
}

#[test]
fn the_verdict_takes_every_file() {
    let good = report(&vec![frame(0x32).to_timings(KEYS)]);
    let bad = report(&vec![vec![500, -500]]);
    assert!(verdict(&vec![]));
    assert!(verdict(&vec![good.clone(), good.clone()]));
    assert!(!verdict(&vec![good.clone(), bad.clone()]));
    assert!(!verdict(&vec![bad, good]));
}

#[test]
fn a_timings_file_is_compact_json() {
    assert_eq!(burst_file(&vec![500, -250, 0]).unwrap(), "[500,-250,0]");
    assert_eq!(burst_file(&vec![]).unwrap(), "[]");
    assert_eq!(
        burst_file(&vec![i64::MIN, i64::MAX]).unwrap(),
        "[-9223372036854775808,9223372036854775807]"
    );
    assert_eq!(
        bursts_file(&vec![vec![500, -250], vec![], vec![7]]).unwrap(),
        "[[500,-250],[],[7]]"
    );
    assert_eq!(bursts_file(&vec![]).unwrap(), "[]");
}

#[test]
fn a_file_of_one_burst_or_of_many_is_decoded() {
    let burst = frame(0x32).to_timings(KEYS);
    let one = decode_file(&burst_file(&burst).unwrap()).unwrap();
    assert_eq!(one.clean, vec![(frame(0x32), KEYS)]);
    assert!(one.consistent);

    let bursts = vec![burst.clone(), vec![500, -500], frame(0x31).to_timings(KEYS)];
    let many = decode_file(&bursts_file(&bursts).unwrap()).unwrap();
    assert_eq!(many.decoded.len(), 3);
    assert_eq!(many.clean, vec![(frame(0x32), KEYS), (frame(0x31), KEYS)]);

    assert_eq!(decode_file("[]").unwrap().decoded.len(), 0, "a list of no bursts");
    assert_eq!(decode_file("[[]]").unwrap().decoded.len(), 1);
    assert_eq!(decode_file(" [ 500 , -500 ]\n").unwrap().decoded.len(), 1);
}

#[test]
fn what_is_no_timings_file_is_not_decoded() {
    for json in ["", "{}", "[1.5]", "[[1],2]", "[\"500\"]", "[500,-500", "[9223372036854775808]"] {
        assert!(
            matches!(decode_file(json), Err(Undecodable::NotTimings { words }) if !words.is_empty()),
            "{json}"
        );
    }
    assert!(matches!(
        decode_file("[500,true]"),
        Err(Undecodable::NotTimings { words })
            if words == "invalid type: boolean `true`, expected i64 at line 1 column 9"
    ));
    assert!(matches!(
        decode_read(Err("no".into())),
        Err(Undecodable::NotTimings { words }) if words == "no"
    ));
    assert!(matches!(decode_bursts(&vec![vec![i64::MAX; 500]]), Err(Undecodable::TooLong)));
}

#[test]
fn a_list_of_bursts_goes_before_one_burst() {
    assert_eq!(list_bursts(Ok(vec![vec![1]]), Ok(vec![2])), Ok(vec![vec![1]]));
    assert_eq!(list_bursts(Ok(vec![]), Ok(vec![])), Ok(vec![]));
    assert_eq!(list_bursts(Err("first".into()), Ok(vec![2, -3])), Ok(vec![vec![2, -3]]));
    assert_eq!(list_bursts(Err("first".into()), Err("second".into())), Err("second".into()));
}

#[test]
fn a_timings_file_is_rendered_and_padded() {
    let timings = frame(0x32).to_timings(KEYS);
    let mut expected = render_transmission(&timings, 2, 9_000, 2_000_000, 100);
    expected.resize(expected.len().div_ceil(512) * 512, 0);

    let prepared = prepare_file(&burst_file(&timings).unwrap(), 2, 9_000, 2_000_000).unwrap();
    assert_eq!(prepared.samples, expected);
    assert_eq!(prepared.edges, timings.len());
    assert_eq!(prepared.duration_us, Some(timings.iter().map(|t| t.abs()).sum()));
    assert_eq!(AMPLITUDE, 100);

    // One sample of mark and one of space, twice over.
    let short = prepare(&vec![1, -1], 1, 0, 1_000_000).unwrap();
    assert_eq!(short.samples[..8], [100, 0, 0, 0, 100, 0, 0, 0]);
    assert_eq!(short.samples.len(), 512);
    assert!(short.samples[8..].iter().all(|&byte| byte == 0));
    assert_eq!((short.edges, short.duration_us), (2, Some(2)));
}

#[test]
fn what_cannot_be_sent_is_refused() {
    for json in ["", "null", "[[500,-500]]", "[0.5]", "{\"timings\":[1]}"] {
        assert!(
            matches!(
                prepare_file(json, 0, 0, 2_000_000),
                Err(Unsendable::NotTimings { words }) if !words.is_empty()
            ),
            "{json}"
        );
    }
    assert!(matches!(
        prepare_file("[500,", 0, 0, 2_000_000),
        Err(Unsendable::NotTimings { words })
            if words == "EOF while parsing a value at line 1 column 5"
    ));
    assert!(matches!(
        prepare_read(Err("no".into()), 0, 0, 2_000_000),
        Err(Unsendable::NotTimings { words }) if words == "no"
    ));
    assert!(matches!(prepare_file("[]", 3, 9_000, 2_000_000), Err(Unsendable::NoTimings)));
    assert!(matches!(prepare(&vec![i64::MAX], 0, 0, 2_000_000), Err(Unsendable::TooLong)));
    assert!(matches!(prepare(&vec![1_000_000; 9], u32::MAX, 0, u32::MAX), Err(Unsendable::TooLong)));
}

/// A keypress: three frames, the gap between them, and a quiet band around.
fn keypress() -> Vec<u8> {
    let mut timings = vec![-400_000];
    for _ in 0..3 {
        timings.extend(frame(0x32).to_timings(KEYS));
        timings.push(-INTER_FRAME_GAP_US);
    }
    timings.push(-400_000);
    synthesize(&timings, 2_000_000, 100)
}

fn settings() -> DemodSettings {
    DemodSettings {
        sample_rate: 2_000_000,
        threshold: float(0.5),
        min_us: 40,
        gap_us: 3_000,
        min_edges: 8,
    }
}

#[test]
fn a_capture_is_demodulated_in_two_passes() {
    let raw = keypress();
    let found = demodulate(&raw, &settings());
    assert_eq!(found.samples, raw.len() / 2);
    assert_eq!(
        (found.levels.noise_floor, found.levels.signal, found.levels.threshold),
        (0, 100, 50)
    );
    assert_eq!(found.bursts, vec![frame(0x32).to_timings(KEYS); 3]);
    assert_eq!(report(&found.bursts).clean, vec![(frame(0x32), KEYS); 3]);

    let merged = demodulate(&raw, &DemodSettings { gap_us: 10_000, ..settings() });
    assert_eq!(merged.bursts.len(), 1, "a gap above the frames' own merges them");

    let few = demodulate(&raw, &DemodSettings { min_edges: 1_000, ..settings() });
    assert!(few.bursts.is_empty());
}

#[test]
fn a_capture_is_replayed_as_a_receiver_hears_it() {
    let mut config = DetectorConfig::new(2_000_000);
    config.window_samples = 200_000;
    let heard = replay(&keypress(), config);
    assert_eq!(heard.len(), 3);
    for burst in &heard {
        assert_eq!(burst.timings, frame(0x32).to_timings(KEYS));
        assert_eq!(burst.peak, 100);
    }
    assert!(
        replay(&keypress()[..100_000], config).is_empty(),
        "nothing is heard before the band was learnt"
    );
}

#[test]
fn a_capture_may_be_empty() {
    let levels = |noise_floor, signal| Levels { noise_floor, signal, threshold: 0 };
    assert!(barely_rises(&levels(7, 16)));
    assert!(!barely_rises(&levels(7, 17)));
    assert!(barely_rises(&levels(40, 7)));
}

#[test]
fn repeats_of_one_frame_are_close() {
    let agreement = |same_edge_count, max_deviation_us| BurstAgreement {
        same_edge_count,
        max_deviation_us,
    };
    assert!(is_static(&agreement(true, 100)));
    assert!(!is_static(&agreement(true, 101)));
    assert!(!is_static(&agreement(false, 0)));
}

#[test]
fn bursts_are_numbered_from_one() {
    let bursts = vec![vec![1], vec![2]];
    assert_eq!(select(&bursts, 1), Some(&vec![1]));
    assert_eq!(select(&bursts, 2), Some(&vec![2]));
    assert_eq!(select(&bursts, 3), None);
}

#[test]
fn bursts_are_held_side_by_side() {
    let found = demodulate(&keypress(), &settings());
    let repeats = compare(&found.bursts).expect("a keypress is short");
    assert_eq!(repeats.durations_us, vec![181 * 450; 3]);
    let agreement = repeats.agreement.expect("there are three");
    assert!(agreement.same_edge_count);
    assert_eq!(agreement.max_deviation_us, 0);

    let alone = compare(&vec![vec![500, -250]]).unwrap();
    assert_eq!(alone.durations_us, vec![750]);
    assert!(alone.agreement.is_none());
    assert!(compare(&vec![]).unwrap().durations_us.is_empty());

    assert!(compare(&vec![vec![i64::MAX, 1]]).is_none(), "too long to be counted");
    assert!(compare(&vec![vec![i64::MAX], vec![-1]]).is_none(), "too far apart");
    assert!(compare(&vec![vec![i64::MAX], vec![-1, 1]]).is_some(), "not to be compared");
}
