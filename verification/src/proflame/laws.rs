//! What encoding and decoding promise of every frame.

use vstd::prelude::*;

use crate::float;
use crate::float::error;
use crate::float::error::{one, units};
use crate::float::Binary;
use crate::ook::analysis;
use crate::ook::bursts;
use crate::ook::clock;
use crate::ook::envelope;
use crate::ook::keypress;
use crate::ook::precision;
use crate::ook::round_trip;
use crate::ook::runs;
use crate::ook::synthesis;
use crate::proflame;
use crate::proflame::{Frame, Keys, Report};

verus! {

/// As many digits are written as are asked for.
pub proof fn binary_length(value: nat, count: nat)
    ensures
        proflame::binary(value, count).len() == count,
    decreases count,
{
    if count > 0 {
        binary_length(value / 2, (count - 1) as nat);
    }
}

/// Every block takes the same number of symbols.
pub proof fn symbols_length(blocks: Seq<u8>, count: nat)
    ensures
        proflame::symbols_of(blocks, count).len() == 26 * count,
    decreases count,
{
    if count > 0 {
        symbols_length(blocks, (count - 1) as nat);
        binary_length(blocks[count - 1] as nat, 8);
    }
}

/// Eight binary digits spell a byte.
pub proof fn number_bound(bits: Seq<bool>)
    requires
        bits.len() == 8,
    ensures
        proflame::number(bits) < 256,
{
    vstd::arithmetic::power2::lemma2_to64();
    lemma_number_bound(bits, 8);
}

proof fn lemma_number_bound(bits: Seq<bool>, count: nat)
    requires
        bits.len() == count,
    ensures
        proflame::number(bits) < vstd::arithmetic::power2::pow2(count),
    decreases count,
{
    vstd::arithmetic::power2::lemma2_to64();
    if count > 0 {
        vstd::arithmetic::power2::lemma_pow2_unfold(count);
        lemma_number_bound(bits.drop_last(), (count - 1) as nat);
    }
}

/// A longer prefix spells no less.
pub proof fn number_grows(bits: Seq<bool>, count: int)
    requires
        0 <= count <= bits.len(),
    ensures
        proflame::number(bits.take(count)) <= proflame::number(bits),
    decreases bits.len(),
{
    if count < bits.len() {
        assert(bits.drop_last().take(count) =~= bits.take(count));
        number_grows(bits.drop_last(), count);
    } else {
        assert(bits.take(count) =~= bits);
    }
}

/// More timings quantise to no fewer symbols.
pub proof fn quantised_grows(timings: Seq<i64>, count: int)
    requires
        0 <= count <= timings.len(),
    ensures
        proflame::quantised(timings.take(count)).len() <= proflame::quantised(timings).len(),
    decreases timings.len(),
{
    if count < timings.len() {
        assert(timings.drop_last().take(count) =~= timings.take(count));
        quantised_grows(timings.drop_last(), count);
    } else {
        assert(timings.take(count) =~= timings);
    }
}

/// The key that made a checksum is the key derived from it.
pub proof fn keys_are_recovered(cmd: u8, key: u8)
    ensures
        proflame::mixed(cmd) ^ (proflame::mixed(cmd) ^ key) == key,
{
    let m = proflame::mixed(cmd);
    assert(m ^ (m ^ key) == key) by (bit_vector);
}

/// The checksum map is linear.
pub proof fn mixing_is_linear(a: u8, b: u8)
    ensures
        proflame::mixed(a ^ b) == proflame::mixed(a) ^ proflame::mixed(b),
{
    assert(proflame::mixed(a ^ b) == proflame::mixed(a) ^ proflame::mixed(b)) by (bit_vector);
}

/// The checksum map is invertible: under one key, no two commands share a
/// checksum.
pub proof fn checksums_tell_commands_apart(a: u8, b: u8, key: u8)
    requires
        proflame::mixed(a) ^ key == proflame::mixed(b) ^ key,
    ensures
        a == b,
{
    assert(proflame::mixed(a) ^ key == proflame::mixed(b) ^ key ==> a == b) by (bit_vector);
}

/// Timings are quantised to the nearest whole symbol: an error below half a
/// symbol does not change the count.
pub proof fn nearest_symbol(timing: int, count: nat)
    requires
        1 <= count <= 0x4000_0000,
        count <= usize::MAX,
        450 * count - 225 < clock::magnitude(timing) < 450 * count + 225,
    ensures
        proflame::symbol_count(timing) == count,
{
    let t = clock::magnitude(timing);
    let ratio = float::quotient(float::from_nat(t), float::from_nat(450));
    precision::ratio_near(t, 450);
    vstd::arithmetic::power2::lemma_pow2_pos(1074);
    match ratio {
        Binary::Finite { mantissa, exponent, .. } => {
            error::round_in_units(mantissa, exponent);
            let whole = float::round_magnitude(mantissa, exponent);
            let q = units(ratio) as int;
            let o = one() as int;
            assert(whole == count) by (nonlinear_arith)
                requires
                    0x20_0000_0000_0000 * (q * 450 - t * o) <= 1 * (t * o),
                    0x20_0000_0000_0000 * (t * o - q * 450) <= 1 * (t * o),
                    (2 * whole - 1) * o <= 2 * q,
                    2 * q < (2 * whole + 1) * o,
                    450 * count - 225 < t < 450 * count + 225,
                    1 <= count <= 0x4000_0000,
                    o > 0,
            {
                let co = count * o;
                let to = t * o;
                assert(to <= 450 * co + 224 * o);
                assert(to >= 450 * co - 224 * o);
                assert(co <= 0x4000_0000 * o);
                assert(2 * q < 2 * co + o);
                assert(2 * q > 2 * co - o);
                assert((2 * whole - 1) * o < (2 * count + 1) * o);
                assert((2 * count - 1) * o < (2 * whole + 1) * o);
            }
        },
        _ => {},
    }
}

/// A number survives its binary digits.
pub proof fn binary_survives(value: nat, count: nat)
    requires
        value < vstd::arithmetic::power2::pow2(count),
    ensures
        proflame::number(proflame::binary(value, count)) == value,
    decreases count,
{
    vstd::arithmetic::power2::lemma2_to64();
    if count > 0 {
        vstd::arithmetic::power2::lemma_pow2_unfold(count);
        let rest = (count - 1) as nat;
        binary_survives(value / 2, rest);
        assert(proflame::binary(value, count).drop_last() =~= proflame::binary(value / 2, rest));
    }
}

/// Stretches, symbol by symbol.
pub(crate) open spec fn expanded(stretches: Seq<(bool, nat)>) -> Seq<bool>
    decreases stretches.len(),
{
    if stretches.len() == 0 {
        Seq::empty()
    } else {
        let (on, count) = stretches.last();
        expanded(stretches.drop_last()) + Seq::new(count, |k: int| on)
    }
}

pub(crate) proof fn lemma_expanded(symbols: Seq<bool>)
    ensures
        expanded(runs::stretches(symbols)) == symbols,
        forall|k: int|
            0 <= k < runs::stretches(symbols).len() ==> (#[trigger] runs::stretches(symbols)[k]).1
                > 0,
    decreases symbols.len(),
{
    let all = runs::stretches(symbols);
    if symbols.len() == 0 {
        assert(expanded(all) =~= symbols);
    } else {
        let rest = symbols.drop_last();
        let before = runs::stretches(rest);
        let on = symbols.last();
        lemma_expanded(rest);
        if before.len() > 0 && before.last().0 == on {
            assert(all.drop_last() =~= before.drop_last());
            let count = before.last().1;
            assert(expanded(before) == expanded(before.drop_last()) + Seq::new(count, |k: int| on));
            assert(expanded(all) =~= rest.push(on));
        } else {
            assert(all.drop_last() =~= before);
            assert(expanded(all) =~= rest.push(on));
        }
        assert(rest.push(on) =~= symbols);
        assert forall|k: int| 0 <= k < all.len() implies (#[trigger] all[k]).1 > 0 by {
            if k < before.len() {
                assert(before[k].1 > 0);
            }
        }
    }
}

/// The pulses of some stretches.
pub(crate) open spec fn pulsed(stretches: Seq<(bool, nat)>) -> Seq<i64> {
    stretches.map_values(|stretch: (bool, nat)| proflame::pulse(stretch))
}

pub(crate) open spec fn short(stretches: Seq<(bool, nat)>) -> bool {
    forall|k: int| 0 <= k < stretches.len() ==> 1 <= (#[trigger] stretches[k]).1 <= 1000
}

/// Whether a timing list is off from another by less than half a symbol each.
pub open spec fn close(skewed: Seq<i64>, timings: Seq<i64>) -> bool {
    &&& skewed.len() == timings.len()
    &&& forall|k: int|
        #![trigger skewed[k]]
        0 <= k < timings.len() ==> -225 < skewed[k] - timings[k] < 225
}

pub(crate) proof fn lemma_quantised(stretches: Seq<(bool, nat)>, skewed: Seq<i64>)
    requires
        short(stretches),
        close(skewed, pulsed(stretches)),
    ensures
        proflame::quantised(skewed) == expanded(stretches),
    decreases stretches.len(),
{
    if stretches.len() == 0 {
        assert(proflame::quantised(skewed) =~= expanded(stretches));
    } else {
        let last = stretches.len() - 1;
        let rest = stretches.drop_last();
        let (on, count) = stretches[last];
        let timing = skewed[last];
        assert forall|k: int| 0 <= k < rest.len() implies 1 <= (#[trigger] rest[k]).1 <= 1000 by {
            assert(rest[k] == stretches[k]);
        }
        assert forall|k: int|
            #![trigger skewed.drop_last()[k]]
            0 <= k < rest.len() implies -225 < skewed.drop_last()[k] - pulsed(rest)[k] < 225 by {
            assert(skewed[k] == skewed.drop_last()[k]);
            assert(pulsed(stretches)[k] == pulsed(rest)[k]);
        }
        lemma_quantised(rest, skewed.drop_last());
        assert(pulsed(stretches)[last] == proflame::pulse(stretches[last]));
        assert(1 <= stretches[last].1 <= 1000);
        nearest_symbol(timing as int, count);
        assert((timing > 0) == on);
        assert(Seq::new(count, |k: int| skewed.last() > 0) =~= Seq::new(count, |k: int| on));
    }
}

/// A block of a longer sequence of blocks.
pub(crate) proof fn lemma_block(blocks: Seq<u8>, count: nat, index: int)
    requires
        0 <= index < count,
    ensures
        proflame::symbols_of(blocks, count).subrange(26 * index, 26 * index + 26)
            == proflame::block_symbols(blocks[index], index == 0),
    decreases count,
{
    let before = (count - 1) as nat;
    symbols_length(blocks, before);
    binary_length(blocks[count - 1] as nat, 8);
    let all = proflame::symbols_of(blocks, count);
    let last = proflame::block_symbols(blocks[count - 1], count == 1);
    if index == count - 1 {
        assert(all.subrange(26 * index, 26 * index + 26) =~= last);
    } else {
        lemma_block(blocks, before, index);
        assert(all.subrange(26 * index, 26 * index + 26) =~= proflame::symbols_of(
            blocks,
            before,
        ).subrange(26 * index, 26 * index + 26));
    }
}

/// A block that was encoded is decoded without a problem.
proof fn lemma_block_decodes(value: u8, index: int)
    requires
        0 <= index,
    ensures
        proflame::value_of(proflame::block_symbols(value, index == 0)) == Some(value),
        proflame::problems_of(proflame::block_symbols(value, index == 0), index).len() == 0,
{
    let first = index == 0;
    let bits = proflame::block_bits(value, first);
    let block = proflame::block_symbols(value, first);
    let data = proflame::binary(value as nat, 8);
    let flagged = data.push(first);
    binary_length(value as nat, 8);
    assert(bits.len() == 11);
    assert(block.take(4) =~= proflame::sync());
    assert forall|k: int| 0 <= k < 11 implies block[4 + 2 * k] == bits[k] && block[4 + 2 * k + 1]
        == !bits[k] by {
        assert(block[4 + 2 * k] == proflame::manchester(bits)[2 * k]);
        assert(block[4 + 2 * k + 1] == proflame::manchester(bits)[2 * k + 1]);
    }
    assert(proflame::paired_bits(block) =~= bits);
    assert(!proflame::violates(block)) by {
        assert forall|k: int| 0 <= k < 11 implies #[trigger] proflame::paired_bits(block)[k]
            != block[4 + 2 * k + 1] by {
            assert(block[4 + 2 * k] == bits[k]);
        }
    }
    assert(bits.take(8) =~= data);
    vstd::arithmetic::power2::lemma2_to64();
    binary_survives(value as nat, 8);
    let checked = bits.take(10);
    assert(checked.drop_last() =~= flagged);
    assert(proflame::ones(checked) % 2 == 0);
    assert(bits[8] == first);
}

/// The blocks of an encoded frame are decoded without a problem.
proof fn lemma_blocks_decode(blocks: Seq<u8>, count: nat, done: nat)
    requires
        done <= count,
    ensures
        ({
            let report = proflame::report_of(proflame::symbols_of(blocks, count), done);
            &&& report.problems.len() == 0
            &&& report.blocks == Seq::new(done, |k: int| Some(blocks[k]))
        }),
    decreases done,
{
    let report = proflame::report_of(proflame::symbols_of(blocks, count), done);
    if done > 0 {
        lemma_blocks_decode(blocks, count, (done - 1) as nat);
        lemma_block(blocks, count, done - 1);
        lemma_block_decodes(blocks[done - 1], done - 1);
    }
    assert(report.blocks =~= Seq::new(done, |k: int| Some(blocks[k])));
}

pub(crate) proof fn lemma_undecoded_is_a_problem(symbols: Seq<bool>, count: nat)
    ensures
        ({
            let report = proflame::report_of(symbols, count);
            &&& report.blocks.len() == count
            &&& report.problems.len() == 0 ==> forall|k: int|
                0 <= k < count ==> #[trigger] report.blocks[k] is Some
        }),
    decreases count,
{
    if count > 0 {
        lemma_undecoded_is_a_problem(symbols, (count - 1) as nat);
        let before = proflame::report_of(symbols, (count - 1) as nat);
        let report = proflame::report_of(symbols, count);
        if report.problems.len() == 0 {
            assert forall|k: int| 0 <= k < count implies #[trigger] report.blocks[k] is Some by {
                if k < count - 1 {
                    assert(report.blocks[k] == before.blocks[k]);
                }
            }
        }
    }
}

/// A burst in which no framing rule failed is clean: what could not be decoded
/// is always among its problems.
pub proof fn without_problems_is_clean(timings: Seq<i64>)
    ensures
        proflame::decoded(timings).clean() <==> proflame::decoded(timings).problems.len() == 0,
{
    let symbols = proflame::filled(proflame::quantised(timings));
    lemma_undecoded_is_a_problem(symbols, symbols.len() / 26);
}

/// The report of a burst that holds some blocks and nothing else.
pub open spec fn intact(blocks: Seq<u8>) -> Report {
    Report { blocks: blocks.map_values(|block: u8| Some(block)), problems: Seq::empty() }
}

/// The stretches of an encoded frame: the last symbol, a space, is on its own.
proof fn lemma_tail(blocks: Seq<u8>, count: nat)
    requires
        count > 0,
    ensures
        ({
            let symbols = proflame::symbols_of(blocks, count);
            let stretches = runs::stretches(symbols);
            &&& symbols.len() == 26 * count
            &&& !symbols.last()
            &&& stretches.len() >= 2
            &&& stretches.last() == (false, 1nat)
            &&& stretches[stretches.len() - 2].0
            &&& stretches.drop_last() == runs::stretches(symbols.drop_last())
        }),
{
    let symbols = proflame::symbols_of(blocks, count);
    let value = blocks[count - 1];
    let block = proflame::block_symbols(value, count == 1);
    let bits = proflame::block_bits(value, count == 1);
    binary_length(value as nat, 8);
    symbols_length(blocks, count);
    symbols_length(blocks, (count - 1) as nat);
    assert(bits[10]);
    assert(block[25] == proflame::manchester(bits)[21]);
    assert(block[24] == proflame::manchester(bits)[20]);
    assert(symbols[26 * count - 1] == block[25]);
    assert(symbols[26 * count - 2] == block[24]);
    let rest = symbols.drop_last();
    assert(rest.last() == symbols[26 * count - 2]);
    round_trip::last_stretch(rest);
    let before = runs::stretches(rest);
    assert(runs::stretches(symbols) == before.push((false, 1nat)));
    assert(before.push((false, 1nat)).drop_last() =~= before);
}

/// An encoded frame, as stretches.
pub(crate) open spec fn frame_stretches(frame: Frame, keys: Keys) -> Seq<(bool, nat)> {
    runs::stretches(proflame::symbols_of(frame.on_air(keys), 7).drop_last())
}

pub(crate) proof fn lemma_encoded(frame: Frame, keys: Keys)
    ensures
        frame.encoded(keys) == pulsed(frame_stretches(frame, keys)),
        short(frame_stretches(frame, keys)),
        frame_stretches(frame, keys).len() > 0,
        frame_stretches(frame, keys).last().0,
        expanded(frame_stretches(frame, keys)) == proflame::symbols_of(
            frame.on_air(keys),
            7,
        ).drop_last(),
        proflame::symbols_of(frame.on_air(keys), 7).len() == 182,
        !proflame::symbols_of(frame.on_air(keys), 7).last(),
{
    let blocks = frame.on_air(keys);
    let symbols = proflame::symbols_of(blocks, 7);
    let stretches = runs::stretches(symbols);
    let kept = frame_stretches(frame, keys);
    lemma_tail(blocks, 7);
    lemma_expanded(symbols.drop_last());
    runs::stretch_bound(symbols.drop_last());
    assert(short(kept));
    let all = proflame::pulses(symbols);
    let fewer = all.drop_last();
    assert(fewer =~= pulsed(kept));
    assert(all.last() == proflame::pulse((false, 1nat)));
    assert(fewer.last() == proflame::pulse(kept.last()));
    assert(kept[kept.len() - 1].1 >= 1);
    assert(fewer.last() > 0);
    assert(bursts::trimmed(fewer) == fewer);
    assert(bursts::trimmed(all) == bursts::trimmed(fewer));
}

/// A frame survives being encoded and decoded, whatever its fields and keys,
/// and so it does where every timing is off by less than half a symbol: as
/// marks read short and spaces long off the air.
pub proof fn frames_survive(frame: Frame, keys: Keys, skewed: Seq<i64>)
    requires
        close(skewed, frame.encoded(keys)),
    ensures
        proflame::decoded(skewed) == intact(frame.on_air(keys)),
        proflame::decoded(skewed).clean(),
        proflame::decoded(skewed).frame() == Some(frame),
        proflame::decoded(skewed).keys() == Some(keys),
        proflame::quantised(skewed).len() == 181,
{
    let blocks = frame.on_air(keys);
    let symbols = proflame::symbols_of(blocks, 7);
    lemma_encoded(frame, keys);
    lemma_quantised(frame_stretches(frame, keys), skewed);
    assert(proflame::filled(symbols.drop_last()) =~= symbols);
    lemma_intact(blocks);
    lemma_intact_frame(frame, keys);
}

proof fn lemma_intact(blocks: Seq<u8>)
    requires
        blocks.len() == 7,
    ensures
        proflame::judged(proflame::symbols_of(blocks, 7)) == intact(blocks),
{
    let symbols = proflame::symbols_of(blocks, 7);
    symbols_length(blocks, 7);
    lemma_blocks_decode(blocks, 7, 7);
    let report = proflame::report_of(symbols, 7);
    assert(report.blocks =~= intact(blocks).blocks);
    assert(report.problems =~= intact(blocks).problems);
    assert(report =~= intact(blocks));
}

proof fn lemma_intact_frame(frame: Frame, keys: Keys)
    ensures
        intact(frame.on_air(keys)).clean(),
        intact(frame.on_air(keys)).frame() == Some(frame),
        intact(frame.on_air(keys)).keys() == Some(keys),
{
    keys_are_recovered(frame.cmd1, keys.k1);
    keys_are_recovered(frame.cmd2, keys.k2);
}

/// How long some stretches of symbols last.
proof fn lemma_air_time(stretches: Seq<(bool, nat)>)
    requires
        short(stretches),
    ensures
        analysis::air_time(pulsed(stretches)) == 450 * expanded(stretches).len(),
    decreases stretches.len(),
{
    if stretches.len() > 0 {
        let rest = stretches.drop_last();
        assert forall|k: int| 0 <= k < rest.len() implies 1 <= (#[trigger] rest[k]).1 <= 1000 by {
            assert(rest[k] == stretches[k]);
        }
        lemma_air_time(rest);
        assert(pulsed(stretches).drop_last() =~= pulsed(rest));
        assert(1 <= stretches[stretches.len() - 1].1 <= 1000);
    }
}

proof fn lemma_stretches_alternate(symbols: Seq<bool>)
    ensures
        ({
            let stretches = runs::stretches(symbols);
            forall|k: int|
                #![trigger stretches[k]]
                1 <= k < stretches.len() ==> stretches[k].0 != stretches[k - 1].0
        }),
    decreases symbols.len(),
{
    if symbols.len() > 0 {
        lemma_stretches_alternate(symbols.drop_last());
        let before = runs::stretches(symbols.drop_last());
        let after = runs::stretches(symbols);
        assert forall|k: int| #![trigger after[k]] 1 <= k < after.len() implies after[k].0
            != after[k - 1].0 by {
            if k < before.len() {
                assert(before[k].0 != before[k - 1].0);
            }
        }
    }
}

/// An encoded frame ends on a mark, its marks and spaces take turns, and it
/// spans its seven blocks but for the last symbol, the unobservable space.
pub proof fn encoding_spans_the_blocks(frame: Frame, keys: Keys)
    ensures
        frame.encoded(keys).len() > 0,
        frame.encoded(keys).last() > 0,
        round_trip::takes_turns(frame.encoded(keys)),
        analysis::air_time(frame.encoded(keys)) == 450 * (7 * 26 - 1),
        forall|k: int|
            #![trigger frame.encoded(keys)[k]]
            0 <= k < frame.encoded(keys).len() ==> 450 <= clock::magnitude(
                frame.encoded(keys)[k] as int,
            ) <= 450_000,
{
    let stretches = frame_stretches(frame, keys);
    let timings = frame.encoded(keys);
    lemma_encoded(frame, keys);
    lemma_air_time(stretches);
    lemma_stretches_alternate(proflame::symbols_of(frame.on_air(keys), 7).drop_last());
    assert forall|k: int| #![trigger timings[k]] 0 <= k < timings.len() implies timings[k] != 0 && (
    timings[k] > 0) == stretches[k].0 && 450 <= clock::magnitude(timings[k] as int)
        <= 450_000 by {
        assert(1 <= stretches[k].1 <= 1000);
        assert(timings[k] == proflame::pulse(stretches[k]));
    }
    assert forall|k: int| #![trigger timings[k]] 1 <= k < timings.len() implies (timings[k] > 0)
        != (timings[k - 1] > 0) by {
        assert(stretches[k].0 != stretches[k - 1].0);
        assert((timings[k - 1] > 0) == stretches[k - 1].0);
    }
}

/// A frame survives the air: encoded, rendered at two samples per microsecond
/// or more, sliced anywhere between silence and the carrier with a glitch
/// floor below one symbol, and decoded, it is the same frame, under the same
/// keys.
pub proof fn frames_survive_the_air(
    frame: Frame,
    keys: Keys,
    sample_rate: u32,
    amplitude: i8,
    threshold: u16,
    min_us: u32,
)
    requires
        sample_rate >= precision::TWO_SAMPLES_PER_US,
        1 <= threshold <= clock::magnitude(amplitude as int),
        min_us < 450,
        synthesis::rendered(frame.encoded(keys), sample_rate, amplitude).len() <= isize::MAX,
    ensures
        ({
            let samples = synthesis::rendered(frame.encoded(keys), sample_rate, amplitude);
            let found = runs::runs_of(
                envelope::magnitudes(samples),
                threshold,
                sample_rate,
                min_us,
            );
            let report = proflame::decoded(round_trip::signed_timings(found));
            report.frame() == Some(frame) && report.keys() == Some(keys)
        }),
{
    let timings = frame.encoded(keys);
    encoding_spans_the_blocks(frame, keys);
    synthesis::rendered_length(timings, sample_rate, amplitude);
    assert forall|k: int| 1 <= k < timings.len() implies round_trip::stretch_of(
        #[trigger] timings[k],
        sample_rate,
    ).1 >= runs::shortest(min_us, sample_rate) by {
        round_trip::count_in_total(timings, k, sample_rate);
        clock::sample_count_bounds(timings[k] as int, sample_rate);
        precision::longer_than_the_floor(timings[k] as int, min_us, sample_rate);
    }
    round_trip::timings_survive_a_round_trip(timings, sample_rate, amplitude, threshold, min_us);
    frames_survive(frame, keys, timings);
}

/// What a symbol of a frame is, by its place in its block.
proof fn lemma_symbol(blocks: Seq<u8>, count: nat, index: int, offset: int)
    requires
        0 <= index < count,
        0 <= offset < 26,
    ensures
        ({
            let symbols = proflame::symbols_of(blocks, count);
            let at = 26 * index + offset;
            &&& symbols.len() == 26 * count
            &&& offset < 3 ==> symbols[at]
            &&& offset == 3 ==> !symbols[at]
            &&& offset >= 4 && offset % 2 == 0 ==> symbols[at] != symbols[at + 1]
            &&& offset == 25 ==> !symbols[at]
        }),
{
    let symbols = proflame::symbols_of(blocks, count);
    let at = 26 * index + offset;
    symbols_length(blocks, count);
    lemma_block(blocks, count, index);
    let first = index == 0;
    let bits = proflame::block_bits(blocks[index], first);
    let block = proflame::block_symbols(blocks[index], first);
    binary_length(blocks[index] as nat, 8);
    assert(symbols.subrange(26 * index, 26 * index + 26)[offset] == symbols[at]);
    assert(block[offset] == symbols[at]);
    if offset >= 4 {
        let k = (offset - 4) / 2;
        assert(block[offset] == proflame::manchester(bits)[offset - 4]);
        if offset % 2 == 0 {
            assert(symbols.subrange(26 * index, 26 * index + 26)[offset + 1] == symbols[at + 1]);
            assert(block[offset + 1] == proflame::manchester(bits)[offset - 3]);
            assert(proflame::manchester(bits)[2 * k] == bits[k]);
            assert(proflame::manchester(bits)[2 * k + 1] == !bits[k]);
        }
        if offset == 25 {
            assert(bits[10]);
        }
    }
}

/// Of three symbols in a row one is a mark, and of four one is a space.
proof fn lemma_varied_at(blocks: Seq<u8>, count: nat, index: int, offset: int)
    requires
        0 <= index < count,
        0 <= offset < 26,
    ensures
        ({
            let symbols = proflame::symbols_of(blocks, count);
            let at = 26 * index + offset;
            &&& at + 2 < symbols.len() ==> marked(symbols, at)
            &&& at + 3 < symbols.len() ==> spaced(symbols, at)
        }),
{
    symbols_length(blocks, count);
    lemma_symbol(blocks, count, index, offset);
    if offset < 3 {
        lemma_symbol(blocks, count, index, 3);
    } else if offset == 3 {
        lemma_symbol(blocks, count, index, 4);
    } else if offset < 25 {
        if offset % 2 == 1 {
            lemma_symbol(blocks, count, index, offset + 1);
        }
    } else if index + 1 < count {
        lemma_symbol(blocks, count, index + 1, 0);
    }
}

/// No three spaces follow each other in a frame, and no four marks.
proof fn lemma_varied(blocks: Seq<u8>, count: nat)
    ensures
        varied(proflame::symbols_of(blocks, count)),
{
    let symbols = proflame::symbols_of(blocks, count);
    symbols_length(blocks, count);
    assert forall|at: int| 0 <= at < symbols.len() - 2 implies #[trigger] marked(symbols, at) by {
        lemma_varied_at(blocks, count, at / 26, at % 26);
    }
    assert forall|at: int| 0 <= at < symbols.len() - 3 implies #[trigger] spaced(symbols, at) by {
        lemma_varied_at(blocks, count, at / 26, at % 26);
    }
}

spec fn marked(symbols: Seq<bool>, at: int) -> bool {
    symbols[at] || symbols[at + 1] || symbols[at + 2]
}

spec fn spaced(symbols: Seq<bool>, at: int) -> bool {
    !symbols[at] || !symbols[at + 1] || !symbols[at + 2] || !symbols[at + 3]
}

spec fn varied(symbols: Seq<bool>) -> bool {
    &&& forall|at: int| 0 <= at < symbols.len() - 2 ==> #[trigger] marked(symbols, at)
    &&& forall|at: int| 0 <= at < symbols.len() - 3 ==> #[trigger] spaced(symbols, at)
}

/// The longest stretch of one kind, in symbols.
spec fn at_most(on: bool) -> nat {
    if on {
        3
    } else {
        2
    }
}

proof fn lemma_stretches_short(symbols: Seq<bool>)
    requires
        varied(symbols),
    ensures
        ({
            let stretches = runs::stretches(symbols);
            &&& forall|k: int|
                0 <= k < stretches.len() ==> (#[trigger] stretches[k]).1 <= at_most(stretches[k].0)
            &&& symbols.len() > 0 ==> stretches.len() > 0 && stretches.last().0 == symbols.last()
                && stretches.last().1 <= symbols.len() && forall|j: int|
                symbols.len() - stretches.last().1 <= j < symbols.len() ==> #[trigger] symbols[j]
                    == symbols.last()
        }),
    decreases symbols.len(),
{
    if symbols.len() > 0 {
        let rest = symbols.drop_last();
        let n = symbols.len() as int;
        assert forall|at: int| 0 <= at < rest.len() - 2 implies #[trigger] marked(rest, at) by {
            assert(marked(symbols, at));
        }
        assert forall|at: int| 0 <= at < rest.len() - 3 implies #[trigger] spaced(rest, at) by {
            assert(spaced(symbols, at));
        }
        lemma_stretches_short(rest);
        let before = runs::stretches(rest);
        let after = runs::stretches(symbols);
        let on = symbols.last();
        if before.len() > 0 && before.last().0 == on {
            let m = before.last().1;
            assert forall|j: int| n - 1 - m <= j < n implies #[trigger] symbols[j] == on by {
                if j < n - 1 {
                    assert(rest[j] == symbols[j]);
                }
            }
            if on && m == 3 {
                assert(spaced(symbols, n - 4));
            }
            if !on && m == 2 {
                assert(marked(symbols, n - 3));
            }
            assert(m < at_most(on)) by {
                assert(before[before.len() - 1].1 <= at_most(on));
            }
        }
        assert forall|k: int| 0 <= k < after.len() implies (#[trigger] after[k]).1 <= at_most(
            after[k].0,
        ) by {
            if k < before.len() {
                assert(before[k].1 <= at_most(before[k].0));
            }
        }
    }
}

proof fn lemma_enough_edges(stretches: Seq<(bool, nat)>)
    requires
        forall|k: int| 0 <= k < stretches.len() ==> (#[trigger] stretches[k]).1 <= 3,
    ensures
        expanded(stretches).len() <= 3 * stretches.len(),
    decreases stretches.len(),
{
    if stretches.len() > 0 {
        let rest = stretches.drop_last();
        assert forall|k: int| 0 <= k < rest.len() implies (#[trigger] rest[k]).1 <= 3 by {
            assert(rest[k] == stretches[k]);
        }
        lemma_enough_edges(rest);
        assert(stretches[stretches.len() - 1].1 <= 3);
    }
}

/// The first stretch is of the first symbol's kind.
proof fn lemma_first_stretch(symbols: Seq<bool>)
    requires
        symbols.len() > 0,
    ensures
        runs::stretches(symbols).len() > 0,
        runs::stretches(symbols).len() <= symbols.len(),
        runs::stretches(symbols)[0].0 == symbols[0],
    decreases symbols.len(),
{
    if symbols.len() > 1 {
        lemma_first_stretch(symbols.drop_last());
    } else {
        assert(runs::stretches(symbols.drop_last()).len() == 0);
    }
}

/// An encoded frame stands out: it begins with a mark, no mark lasts longer
/// than the sync's three symbols and no space longer than two, and it has many
/// edges, but not too many for a burst.
pub proof fn encoding_stands_out(frame: Frame, keys: Keys)
    ensures
        61 <= frame.encoded(keys).len() <= 181,
        frame.encoded(keys)[0] > 0,
        forall|k: int|
            #![trigger frame.encoded(keys)[k]]
            0 <= k < frame.encoded(keys).len() ==> -900 <= frame.encoded(keys)[k] <= 1350,
{
    let timings = frame.encoded(keys);
    let stretches = frame_stretches(frame, keys);
    let symbols = proflame::symbols_of(frame.on_air(keys), 7);
    let kept = symbols.drop_last();
    lemma_encoded(frame, keys);
    lemma_varied(frame.on_air(keys), 7);
    assert forall|at: int| 0 <= at < kept.len() - 2 implies #[trigger] marked(kept, at) by {
        assert(marked(symbols, at));
    }
    assert forall|at: int| 0 <= at < kept.len() - 3 implies #[trigger] spaced(kept, at) by {
        assert(spaced(symbols, at));
    }
    lemma_stretches_short(kept);
    lemma_first_stretch(kept);
    lemma_symbol(frame.on_air(keys), 7, 0, 0);
    lemma_enough_edges(stretches);
    assert forall|k: int| #![trigger timings[k]] 0 <= k < timings.len() implies -900 <= timings[k]
        <= 1350 && (timings[k] > 0) == stretches[k].0 by {
        assert(1 <= stretches[k].1 <= 1000);
        assert(stretches[k].1 <= at_most(stretches[k].0));
        assert(timings[k] == proflame::pulse(stretches[k]));
    }
}

/// Nothing in a keypress is short enough to be a glitch.
proof fn lemma_no_glitch(
    frame: Frame,
    keys: Keys,
    repeat: u32,
    gap_us: u32,
    sample_rate: u32,
    amplitude: i8,
    min_us: u32,
)
    requires
        sample_rate >= precision::TWO_SAMPLES_PER_US,
        min_us < 450,
        900 < gap_us,
        synthesis::transmission(
            frame.encoded(keys),
            repeat,
            gap_us,
            sample_rate,
            amplitude,
        ).len() <= isize::MAX,
    ensures
        ({
            let timings = frame.encoded(keys);
            &&& round_trip::takes_turns(timings)
            &&& forall|k: int|
                0 <= k < timings.len() ==> clock::magnitude(#[trigger] timings[k] as int)
                    <= precision::LONGEST_US
            &&& forall|k: int|
                0 <= k < timings.len() ==> round_trip::stretch_of(
                    #[trigger] timings[k],
                    sample_rate,
                ).1 >= runs::shortest(min_us, sample_rate)
            &&& repeat > 0 ==> round_trip::stretch_of((-gap_us) as i64, sample_rate).1
                >= runs::shortest(min_us, sample_rate)
        }),
{
    let timings = frame.encoded(keys);
    let gap = (-gap_us) as i64;
    let each = synthesis::rendered(timings, sample_rate, amplitude).len();
    let silence = synthesis::rendered(seq![gap], sample_rate, amplitude).len();
    encoding_spans_the_blocks(frame, keys);
    synthesis::rendered_length(timings, sample_rate, amplitude);
    synthesis::rendered_length(seq![gap], sample_rate, amplitude);
    synthesis::repeated_length(
        synthesis::rendered(timings, sample_rate, amplitude),
        synthesis::rendered(seq![gap], sample_rate, amplitude),
        repeat as nat,
    );
    assert(repeat * (silence + each) >= 0 && (repeat > 0 ==> repeat * (silence + each)
        >= silence)) by (nonlinear_arith)
        requires
            repeat >= 0,
            silence >= 0,
            each >= 0,
    ;
    if repeat > 0 {
        round_trip::count_in_total(seq![gap], 0, sample_rate);
        clock::sample_count_bounds(gap as int, sample_rate);
        precision::longer_than_the_floor(gap as int, min_us, sample_rate);
    }
    assert forall|k: int| 0 <= k < timings.len() implies round_trip::stretch_of(
        #[trigger] timings[k],
        sample_rate,
    ).1 >= runs::shortest(min_us, sample_rate) by {
        round_trip::count_in_total(timings, k, sample_rate);
        clock::sample_count_bounds(timings[k] as int, sample_rate);
        precision::longer_than_the_floor(timings[k] as int, min_us, sample_rate);
    }
}

/// A keypress is decoded: a frame that is transmitted again and again, with a
/// silence between that separates bursts, is demodulated into as many bursts,
/// each of which decodes to the frame, under its keys.
#[verifier::rlimit(30)]
#[verifier::spinoff_prover]
pub proof fn keypresses_are_decoded(
    frame: Frame,
    keys: Keys,
    repeat: u32,
    gap_us: u32,
    sample_rate: u32,
    amplitude: i8,
    threshold: u16,
    min_us: u32,
    burst_gap_us: i64,
    min_edges: usize,
)
    requires
        sample_rate >= precision::TWO_SAMPLES_PER_US,
        1 <= threshold <= clock::magnitude(amplitude as int),
        min_us < 450,
        900 < burst_gap_us <= gap_us,
        min_edges <= 61,
        synthesis::transmission(
            frame.encoded(keys),
            repeat,
            gap_us,
            sample_rate,
            amplitude,
        ).len() <= isize::MAX,
    ensures
        ({
            let samples = synthesis::transmission(
                frame.encoded(keys),
                repeat,
                gap_us,
                sample_rate,
                amplitude,
            );
            let found = bursts::bursts_of(
                runs::runs_of(envelope::magnitudes(samples), threshold, sample_rate, min_us),
                burst_gap_us,
                min_edges,
            );
            &&& found.len() == repeat + 1
            &&& forall|k: int|
                #![trigger found[k]]
                0 <= k < found.len() ==> proflame::decoded(found[k]).frame() == Some(frame)
                    && proflame::decoded(found[k]).keys() == Some(keys)
        }),
{
    let timings = frame.encoded(keys);
    lemma_no_glitch(frame, keys, repeat, gap_us, sample_rate, amplitude, min_us);
    assert(bursts::is_burst(timings, burst_gap_us, min_edges)) by {
        encoding_spans_the_blocks(frame, keys);
        encoding_stands_out(frame, keys);
    }
    encoding_stands_out(frame, keys);
    keypress::repeats_come_back(
        timings,
        repeat,
        gap_us,
        sample_rate,
        amplitude,
        threshold,
        min_us,
        burst_gap_us,
        min_edges,
    );
    frames_survive(frame, keys, timings);
}

} // verus!
