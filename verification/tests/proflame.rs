//! The fireplace protocol, both directions.

use hackrf_proxyd::ook::{envelope, runs, synthesize};
use hackrf_proxyd::proflame::{
    burst_symbols, checksum, decode, derive_key, Frame, Keys, Problem, State, BLOCK_SYMBOLS,
    FIELD_NAMES, FRAME_BLOCKS, SYMBOL_US, SYNC_SYMBOLS,
};

/// This house's remote, as captured and verified on air.
const HOUSE: Frame = Frame { serial1: 0x00, serial2: 0x86, version: 0x02, cmd1: 0x01, cmd2: 0x32 };
const HOUSE_KEYS: Keys = Keys { k1: 0x0a, k2: 0x86 };

#[test]
fn checksum_matches_the_inherited_table() {
    // The first two packets of remote 21dd: the key derived from one must
    // reproduce the other's checksums.
    let k1 = derive_key(0x02, 0x3f);
    let k2 = derive_key(0x3e, 0x16);
    assert_eq!(checksum(0x51, k1), 0xa9);
    assert_eq!(checksum(0xe2, k2), 0xe7);
}

#[test]
fn a_frame_survives_an_encode_decode_round_trip() {
    let decoded = decode(&HOUSE.to_timings(HOUSE_KEYS));

    assert!(decoded.is_clean(), "problems: {:?}", decoded.problems);
    assert_eq!(decoded.frame(), Some(HOUSE));
    assert_eq!(decoded.keys(), Some(HOUSE_KEYS));
}

#[test]
fn encoding_ends_on_a_mark_and_spans_seven_blocks() {
    let timings = HOUSE.to_timings(HOUSE_KEYS);

    assert!(*timings.last().unwrap() > 0);
    let symbols: i64 = timings.iter().map(|t| t.abs()).sum::<i64>() / SYMBOL_US;
    // The unobservable trailing space is the only symbol missing.
    assert_eq!(symbols, (FRAME_BLOCKS * BLOCK_SYMBOLS) as i64 - 1);
}

#[test]
fn realistic_timing_error_does_not_change_the_decode() {
    // Captures read marks ~100 µs short and spaces ~100 µs long (slicing
    // threshold above the envelope midpoint). Decoding must be immune.
    // Subtracting 100 shortens marks and lengthens spaces, both by 100 µs.
    let skewed: Vec<i64> = HOUSE.to_timings(HOUSE_KEYS).into_iter().map(|t| t - 100).collect();

    assert_eq!(decode(&skewed).frame(), Some(HOUSE));
}

/// Expand timings into one symbol per entry, for surgical corruption.
fn to_symbols(timings: &[i64]) -> Vec<bool> {
    timings
        .iter()
        .flat_map(|&t| std::iter::repeat_n(t > 0, (t.abs() / SYMBOL_US) as usize))
        .collect()
}

fn to_timings(symbols: &[bool]) -> Vec<i64> {
    symbols.iter().map(|&s| if s { SYMBOL_US } else { -SYMBOL_US }).collect()
}

#[test]
fn a_flipped_data_bit_fails_parity_not_silently() {
    // Invert the first data bit of block 0: swapping a `01` pair to `10` stays
    // valid Manchester, so parity is the only check that can catch the
    // corruption.
    let mut symbols = to_symbols(&HOUSE.to_timings(HOUSE_KEYS));
    symbols.swap(SYNC_SYMBOLS, SYNC_SYMBOLS + 1);

    let decoded = decode(&to_timings(&symbols));
    assert!(decoded.problems.contains(&Problem::Parity { block: 0 }), "{:?}", decoded.problems);
    assert!(decoded.frame().is_none());
}

#[test]
fn a_clobbered_stop_bit_is_a_manchester_violation() {
    // Extending the final mark across the stop bit's space makes the last pair
    // `11`, which must surface as a problem, not a silent success.
    let mut timings = HOUSE.to_timings(HOUSE_KEYS);
    *timings.last_mut().unwrap() += 2 * SYMBOL_US;

    let decoded = decode(&timings);
    assert!(!decoded.is_clean());
    assert!(decoded.frame().is_none());
}

#[test]
fn a_truncated_burst_reports_block_count() {
    let timings = HOUSE.to_timings(HOUSE_KEYS);
    let half = &timings[..timings.len() / 2];

    let decoded = decode(half);
    assert!(decoded.problems.iter().any(|p| matches!(p, Problem::BlockCount { .. })));
    assert!(decoded.frame().is_none());
}

#[test]
fn an_empty_burst_is_a_report_not_a_panic() {
    let decoded = decode(&[]);
    assert!(!decoded.is_clean());
    assert_eq!(decoded.blocks.len(), 0);
}

#[test]
fn undecoded_blocks_are_not_clean() {
    let mut decoded = decode(&HOUSE.to_timings(HOUSE_KEYS));
    assert!(decoded.is_clean());
    decoded.blocks[6] = None;
    assert!(!decoded.is_clean(), "all seven blocks have to be decoded");
    assert!(decoded.frame().is_none());
    decoded.blocks = vec![None; 7];
    assert!(!decoded.is_clean());
}

/// The field layout has to explain what we actually watched happen, or it is
/// the wrong layout. Each of these is a button press we observed.
#[test]
fn the_field_layout_explains_every_observed_button_press() {
    let on = State::from_commands(0x01, 0x36);
    let off = State::from_commands(0x00, 0x36);
    assert_eq!(on.differences(&off), vec!["power"], "the power button moved only power");

    let flame_low = State::from_commands(0x01, 0x32);
    let flame_high = State::from_commands(0x01, 0x34);
    assert_eq!(flame_low.differences(&flame_high), vec!["flame"]);
    assert_eq!((flame_low.flame, flame_high.flame), (2, 4));

    let manual = State::from_commands(0x01, 0x31);
    let smart = State::from_commands(0x03, 0x31);
    assert_eq!(manual.differences(&smart), vec!["thermostat"]);
}

#[test]
fn state_survives_a_round_trip_through_the_command_bytes() {
    for cmd1 in 0..=u8::MAX {
        for cmd2 in [0x00u8, 0x31, 0x36, 0x80, 0xFF] {
            let state = State::from_commands(cmd1, cmd2);
            assert_eq!(state.to_commands(), (cmd1, cmd2), "0x{cmd1:02x} 0x{cmd2:02x}");
        }
    }
}

#[test]
fn the_reserved_bits_are_zero_in_every_frame_we_have_seen() {
    // If these ever come back non-zero the layout is wrong, so the decoder
    // surfaces them rather than masking them away.
    for cmd1 in [0x00u8, 0x01, 0x03] {
        assert_eq!(State::from_commands(cmd1, 0x36).reserved, 0);
    }
    assert_eq!(State::from_commands(0b0000_1100, 0).reserved, 0b11);
}

#[test]
fn keys_recovered_from_any_frame_transfer_to_other_commands() {
    // The property that makes TX possible without solving serial->K.
    let observed = Frame { cmd2: 0x34, ..HOUSE };
    let decoded = decode(&observed.to_timings(HOUSE_KEYS));
    assert_eq!(decoded.keys(), Some(HOUSE_KEYS));
}

#[test]
fn every_command_survives_the_air() {
    // Encoded, rendered, sliced and decoded again.
    for cmd2 in [0x00u8, 0x32, 0x55, 0xFF] {
        let frame = Frame { cmd1: !cmd2, cmd2, ..HOUSE };
        let samples = synthesize(&frame.to_timings(HOUSE_KEYS), 2_000_000, 100);
        let timings: Vec<i64> = runs(&envelope(&samples), 50, 2_000_000, 40)
            .iter()
            .map(|run| if run.on { run.us } else { -run.us })
            .collect();
        let decoded = decode(&timings);
        assert_eq!(decoded.frame(), Some(frame));
        assert_eq!(decoded.keys(), Some(HOUSE_KEYS));
    }
}

#[test]
fn an_encoded_frame_stands_out() {
    for cmd2 in 0..=u8::MAX {
        let timings = Frame { cmd1: cmd2 ^ 0xA5, cmd2, ..HOUSE }.to_timings(HOUSE_KEYS);
        assert!(timings[0] == 1350, "the sync is three marks long");
        assert!((61..=181).contains(&timings.len()));
        assert!(timings.iter().all(|t| (-900..=1350).contains(t)));
    }
}

#[test]
fn the_blocks_go_on_air_in_order() {
    assert_eq!(FIELD_NAMES[5], "checksum1");
    let blocks = HOUSE.blocks(HOUSE_KEYS);
    assert_eq!(blocks[..5], [0x00, 0x86, 0x02, 0x01, 0x32]);
    assert_eq!(derive_key(0x01, blocks[5]), 0x0a);
    assert_eq!(derive_key(0x32, blocks[6]), 0x86);
    assert_eq!(blocks, [0x00, 0x86, 0x02, 0x01, 0x32, 0x2b, 0x97]);
}

#[test]
fn every_broken_rule_is_named() {
    let symbols = to_symbols(&HOUSE.to_timings(HOUSE_KEYS));

    // The second symbol of the sync is missing.
    let mut sync = symbols.clone();
    sync[BLOCK_SYMBOLS + 1] = false;
    assert_eq!(decode(&to_timings(&sync)).problems, vec![Problem::Sync { block: 1 }]);

    // Two equal symbols in one pair.
    let mut pair = symbols.clone();
    pair[SYNC_SYMBOLS + 1] = pair[SYNC_SYMBOLS];
    let decoded = decode(&to_timings(&pair));
    assert_eq!(decoded.problems, vec![Problem::Manchester { block: 0 }]);
    assert_eq!(decoded.blocks[0], None);
    assert_eq!(decoded.blocks[1], Some(0x86));

    // The start-of-frame bit of the second block, set; parity counts it.
    let mut start = symbols.clone();
    start.swap(BLOCK_SYMBOLS + SYNC_SYMBOLS + 16, BLOCK_SYMBOLS + SYNC_SYMBOLS + 17);
    assert_eq!(
        decode(&to_timings(&start)).problems,
        vec![Problem::Parity { block: 1 }, Problem::StartOfFrame { block: 1, value: true }]
    );

    // The stop bit of the second block, cleared.
    let mut stop = symbols;
    stop.swap(BLOCK_SYMBOLS + SYNC_SYMBOLS + 20, BLOCK_SYMBOLS + SYNC_SYMBOLS + 21);
    assert_eq!(decode(&to_timings(&stop)).problems, vec![Problem::StopBit { block: 1 }]);
}

#[test]
fn problems_are_told_in_words() {
    assert_eq!(Problem::Sync { block: 3 }.to_string(), "block 3: bad sync");
    assert_eq!(Problem::Manchester { block: 0 }.to_string(), "block 0: Manchester violation");
    assert_eq!(Problem::StopBit { block: 12 }.to_string(), "block 12: stop bit not set");
    assert_eq!(Problem::Parity { block: 6 }.to_string(), "block 6: parity");
    assert_eq!(
        Problem::StartOfFrame { block: 1, value: true }.to_string(),
        "block 1: start-of-frame flag is 1"
    );
    assert_eq!(Problem::BlockCount { blocks: 8 }.to_string(), "8 blocks, expected 7");
}

#[test]
fn states_are_told_in_words() {
    assert_eq!(
        State::from_commands(0xC1, 0xB6).to_string(),
        "power=1 flame=6 fan=3 light=4 thermostat=0 aux=0 front=1 pilot=1"
    );
    assert_eq!(
        State::from_commands(0x04, 0x08).to_string(),
        "power=0 flame=0 fan=0 light=0 thermostat=0 aux=1 front=0 pilot=0  reserved=01 \
         (expected 0 — the field layout may be wrong)"
    );
}

#[test]
fn a_burst_is_measured_before_it_is_decoded() {
    assert_eq!(burst_symbols(&HOUSE.to_timings(HOUSE_KEYS)), Some(181));
    assert_eq!(burst_symbols(&[]), Some(0));
    assert_eq!(burst_symbols(&[674, -675]), Some(3), "to the nearest, and up from the middle");
    assert_eq!(burst_symbols(&vec![i64::MAX; 1_000]), None);
}
