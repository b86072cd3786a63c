//! Timings, samples and amplitudes, in plain numbers.

use vstd::arithmetic::power2::*;
use vstd::prelude::*;

use crate::float;
use crate::float::error;
use crate::float::error::{one, units};
use crate::float::Binary;
use crate::ook::clock;
use crate::ook::detector::DetectorConfig;
use crate::ook::envelope;
use crate::ook::precision;
use crate::ook::runs;
use crate::ook::synthesis;

verus! {

/// A run of samples lasts as long as its samples do, to the nearest
/// microsecond.
pub proof fn runs_last_as_long_as_their_samples(samples: nat, sample_rate: u32)
    requires
        sample_rate > 0,
        samples <= 0x4000_0000,
    ensures
        -(sample_rate as int) <= 2 * (clock::run_us(samples, sample_rate) * sample_rate - samples
            * 1_000_000) <= sample_rate,
{
    let rate = sample_rate as nat;
    let ratio = clock::us_per_sample(sample_rate);
    let product = float::product(float::from_nat(samples), ratio);
    lemma_pow2_pos(1074);
    precision::ratio_near(1_000_000, rate);
    if samples == 0 {
        vstd::arithmetic::div_mod::lemma_basic_div(one() as int, (2 * one()) as int);
        assert(float::round_magnitude(0, -1074) == 0);
        assert(clock::run_us(0, sample_rate) == 0);
        assert(0 * (sample_rate as int) == 0);
    } else {
        precision::multiple_near(samples, 0, ratio, 1_000_000, rate);
        let p = units(product) as int;
        let o = one() as int;
        let x = (samples * 1_000_000) as int;
        match product {
            Binary::Finite { mantissa, exponent, .. } => {
                error::round_in_units(mantissa, exponent);
                let w = float::round_magnitude(mantissa, exponent) as int;
                let r = rate as int;
                assert((2 * w - 1) * r <= 2 * x && 2 * x <= (2 * w + 1) * r) by (nonlinear_arith)
                    requires
                        (2 * w - 1) * o <= 2 * p,
                        2 * p < (2 * w + 1) * o,
                        0x20_0000_0000_0000 * (p * r - x * o) <= 4 * (x * o),
                        0x20_0000_0000_0000 * (x * o - p * r) <= 4 * (x * o),
                        0 < x <= 0x4000_0000 * 1_000_000,
                        0 < r,
                        o > 0,
                {
                    assert(x * o <= (0x4000_0000 * 1_000_000) * o);
                    assert(8 * (x * o) < 0x20_0000_0000_0000 * o);
                    assert(2 * (p * r - x * o) < o);
                    assert(2 * (x * o - p * r) < o);
                    assert(((2 * w - 1) * r) * o <= 2 * (p * r));
                    assert(2 * (p * r) <= ((2 * w + 1) * r) * o);
                    assert(((2 * w - 1) * r) * o < (2 * x + 1) * o);
                    assert((2 * x) * o < ((2 * w + 1) * r + 1) * o);
                    assert((2 * w - 1) * r < 2 * x + 1);
                    assert(2 * x < (2 * w + 1) * r + 1);
                }
                assert(w <= x + r) by (nonlinear_arith)
                    requires
                        (2 * w - 1) * r <= 2 * x,
                        0 < r,
                        0 < x,
                        w >= 0,
                {
                    if w > x + r {
                        assert((2 * w - 1) * r >= 2 * w - 1);
                    }
                }
                assert(clock::run_us(samples, sample_rate) == w);
                assert(-r <= 2 * (w * r - x) <= r) by (nonlinear_arith)
                    requires
                        (2 * w - 1) * r <= 2 * x,
                        2 * x <= (2 * w + 1) * r,
                ;
            },
            _ => {},
        }
    }
}

/// A timing takes as many samples as fill it, to the nearest.
pub proof fn timings_take_their_samples(timing: int, sample_rate: u32)
    requires
        sample_rate > 0,
        clock::magnitude(timing) * sample_rate as nat <= 0x4_0000_0000_0000,
    ensures
        ({
            let count = clock::sample_count(timing, sample_rate);
            let exact = (if timing < 0 {
                -timing
            } else {
                timing
            }) * sample_rate;
            -1_000_000 <= 2 * (count * 1_000_000 - exact) <= 1_000_000
        }),
{
    let t = clock::magnitude(timing);
    let rate = sample_rate as nat;
    let x = (t * rate) as int;
    assert((if timing < 0 {
        -timing
    } else {
        timing
    }) * sample_rate == x) by {
        assert(t == if timing < 0 {
            -timing
        } else {
            timing
        });
    }
    let ratio = clock::samples_per_us(sample_rate);
    let product = float::product(float::from_nat(t), ratio);
    lemma_pow2_pos(1074);
    precision::ratio_near(rate, 1_000_000);
    if t == 0 {
        vstd::arithmetic::div_mod::lemma_basic_div(one() as int, (2 * one()) as int);
        assert(float::round_magnitude(0, -1074) == 0);
        assert(x == 0) by (nonlinear_arith)
            requires
                x == t * rate,
                t == 0,
        ;
    } else {
        assert(t <= x) by (nonlinear_arith)
            requires
                x == t * rate,
                rate >= 1,
        ;
        precision::multiple_near(t, 0, ratio, rate, 1_000_000);
        let p = units(product) as int;
        let o = one() as int;
        match product {
            Binary::Finite { mantissa, exponent, .. } => {
                error::round_in_units(mantissa, exponent);
                let w = float::round_magnitude(mantissa, exponent) as int;
                assert((2 * w - 1) * 1_000_000 <= 2 * x && 2 * x <= (2 * w + 1) * 1_000_000)
                    by (nonlinear_arith)
                    requires
                        (2 * w - 1) * o <= 2 * p,
                        2 * p < (2 * w + 1) * o,
                        0x20_0000_0000_0000 * (p * 1_000_000 - x * o) <= 4 * (x * o),
                        0x20_0000_0000_0000 * (x * o - p * 1_000_000) <= 4 * (x * o),
                        0 < x <= 0x4_0000_0000_0000,
                        o > 0,
                {
                    assert(x * o <= 0x4_0000_0000_0000 * o);
                    assert(2 * (p * 1_000_000 - x * o) <= o);
                    assert(2 * (x * o - p * 1_000_000) <= o);
                    assert(((2 * w - 1) * 1_000_000) * o <= 2 * (p * 1_000_000));
                    assert(2 * (p * 1_000_000) < ((2 * w + 1) * 1_000_000) * o);
                    assert(((2 * w - 1) * 1_000_000) * o <= (2 * x + 1) * o);
                    assert((2 * x) * o < ((2 * w + 1) * 1_000_000 + 1) * o);
                    assert((2 * w - 1) * 1_000_000 <= 2 * x + 1);
                    assert(2 * x < (2 * w + 1) * 1_000_000 + 1);
                }
                assert(clock::sample_count(timing, sample_rate) == w);
            },
            _ => {},
        }
    }
}

/// The shortest run and the longest gap, in samples, are the durations asked
/// for, to the nearest sample, and one at the least.
pub proof fn floors_are_the_nearest_samples(us: nat, sample_rate: u32, limit: int)
    requires
        sample_rate > 0,
        us <= 0x8000_0000_0000,
        us * sample_rate as nat <= 0x1_0000_0000_0000,
        limit >= 1,
        clock::at_least_one(float::from_nat(us), sample_rate, limit) < limit,
    ensures
        ({
            let count = clock::at_least_one(float::from_nat(us), sample_rate, limit);
            &&& count >= 1
            &&& 2 * (us * sample_rate) <= (2 * count + 1) * 1_000_000
            &&& count > 1 ==> (2 * count - 1) * 1_000_000 <= 2 * (us * sample_rate)
        }),
{
    let rate = sample_rate as nat;
    let x = (us * rate) as int;
    let count = clock::at_least_one(float::from_nat(us), sample_rate, limit);
    lemma_pow2_pos(1074);
    if us == 0 {
        precision::ratio_near(1_000_000, rate);
        vstd::arithmetic::div_mod::lemma_basic_div(one() as int, (2 * one()) as int);
        assert(float::round_magnitude(0, -1074) == 0);
        assert(x == 0) by (nonlinear_arith)
            requires
                x == us * rate,
                us == 0,
        ;
    } else {
        assert(us <= x) by (nonlinear_arith)
            requires
                x == us * rate,
                rate >= 1,
        ;
        let whole = precision::lemma_floor(us, sample_rate);
        let o = one() as int;
        let w = whole as int;
        assert(count == if whole < 1 {
            1
        } else {
            whole as int
        });
        assert((2 * w - 1) * 1_000_000 <= 2 * x && 2 * x <= (2 * w + 1) * 1_000_000)
            by (nonlinear_arith)
            requires
                0x1F_FFFF_FFFF_FFFF * (1_000_000 * (2 * (w * o) - o)) <= 0x40_0000_0000_0002 * (x
                    * o),
                0x20_0000_0000_0001 * (1_000_000 * (2 * (w * o) + o)) > 0x3F_FFFF_FFFF_FFFE * (x
                    * o),
                0 < x <= 0x1_0000_0000_0000,
                w >= 0,
                o > 0,
        {
            assert(2 * (w * o) - o == (2 * w - 1) * o);
            assert(2 * (w * o) + o == (2 * w + 1) * o);
            assert((0x1F_FFFF_FFFF_FFFF * (1_000_000 * (2 * w - 1))) * o <= (0x40_0000_0000_0002
                * x) * o);
            assert((0x20_0000_0000_0001 * (1_000_000 * (2 * w + 1))) * o > (0x3F_FFFF_FFFF_FFFE
                * x) * o);
            assert(0x1F_FFFF_FFFF_FFFF * (1_000_000 * (2 * w - 1)) <= 0x40_0000_0000_0002 * x);
            assert(0x20_0000_0000_0001 * (1_000_000 * (2 * w + 1)) > 0x3F_FFFF_FFFF_FFFE * x);
        }
    }
}

/// The settings of a detector in samples: its shortest run and its gap are the
/// microseconds that it was given, to the nearest sample.
pub proof fn settings_in_samples(config: DetectorConfig)
    requires
        0 < config.sample_rate <= 20_000_000,
        0 <= config.gap_us <= 10_000_000,
        config.min_us <= 10_000_000,
    ensures
        config.min_samples() >= 1,
        config.gap_samples() >= 1,
        2 * (config.min_us * config.sample_rate) <= (2 * config.min_samples() + 1) * 1_000_000,
        config.min_samples() > 1 ==> (2 * config.min_samples() - 1) * 1_000_000 <= 2 * (
        config.min_us * config.sample_rate),
        2 * (config.gap_us * config.sample_rate) <= (2 * config.gap_samples() + 1) * 1_000_000,
        config.gap_samples() > 1 ==> (2 * config.gap_samples() - 1) * 1_000_000 <= 2 * (
        config.gap_us * config.sample_rate),
{
    let rate = config.sample_rate as nat;
    let min = config.min_us as nat;
    let gap = config.gap_us as nat;
    assert(min * rate <= 0x1_0000_0000_0000 && gap * rate <= 0x1_0000_0000_0000)
        by (nonlinear_arith)
        requires
            rate <= 20_000_000,
            min <= 10_000_000,
            gap <= 10_000_000,
    ;
    lemma_floor_is_moderate(min, config.sample_rate);
    lemma_floor_is_moderate(gap, config.sample_rate);
    floors_are_the_nearest_samples(min, config.sample_rate, u64::MAX as int);
    floors_are_the_nearest_samples(gap, config.sample_rate, u64::MAX as int);
}

proof fn lemma_floor_is_moderate(us: nat, sample_rate: u32)
    requires
        sample_rate > 0,
        us <= 0x8000_0000_0000,
        us * sample_rate as nat <= 0x1_0000_0000_0000,
    ensures
        clock::at_least_one(float::from_nat(us), sample_rate, u64::MAX as int) < u64::MAX,
{
    let x = us * sample_rate as nat;
    lemma_pow2_pos(1074);
    if us == 0 {
        precision::ratio_near(1_000_000, sample_rate as nat);
        vstd::arithmetic::div_mod::lemma_basic_div(one() as int, (2 * one()) as int);
        assert(float::round_magnitude(0, -1074) == 0);
    } else {
        assert(us <= x) by (nonlinear_arith)
            requires
                x == us * sample_rate as nat,
                sample_rate >= 1,
        ;
        let w = precision::lemma_floor(us, sample_rate) as int;
        let o = one() as int;
        assert(w <= 0x4_0000_0000_0000) by (nonlinear_arith)
            requires
                0x1F_FFFF_FFFF_FFFF * (1_000_000 * (2 * (w * o) - o)) <= 0x40_0000_0000_0002 * (x
                    * o),
                0 < x <= 0x1_0000_0000_0000,
                w >= 0,
                o > 0,
        {
            assert(2 * (w * o) - o == (2 * w - 1) * o);
            assert((0x1F_FFFF_FFFF_FFFF * (1_000_000 * (2 * w - 1))) * o <= (0x40_0000_0000_0002
                * x) * o);
            assert(0x1F_FFFF_FFFF_FFFF * (1_000_000 * (2 * w - 1)) <= 0x40_0000_0000_0002 * x);
        }
    }
}

/// The same floor in the offline path.
pub proof fn glitches_are_shorter_than_asked(min_us: u32, sample_rate: u32)
    requires
        0 < sample_rate <= 20_000_000,
        min_us <= 10_000,
    ensures
        ({
            let count = runs::shortest(min_us, sample_rate);
            &&& count >= 1
            &&& 2 * (min_us * sample_rate) <= (2 * count + 1) * 1_000_000
            &&& count > 1 ==> (2 * count - 1) * 1_000_000 <= 2 * (min_us * sample_rate)
        }),
{
    let us = min_us as nat;
    let x = us * sample_rate as nat;
    assert(x <= 200_000_000_000) by (nonlinear_arith)
        requires
            x == us * sample_rate as nat,
            us <= 10_000,
            sample_rate <= 20_000_000,
    ;
    if us > 0 {
        lemma_pow2_pos(1074);
        let w = precision::lemma_floor(us, sample_rate) as int;
        let o = one() as int;
        assert(w <= 300_000) by (nonlinear_arith)
            requires
                0x1F_FFFF_FFFF_FFFF * (1_000_000 * (2 * (w * o) - o)) <= 0x40_0000_0000_0002 * (x
                    * o),
                0 <= x <= 200_000_000_000,
                w >= 0,
                o > 0,
        {
            assert(2 * (w * o) - o == (2 * w - 1) * o);
            assert((0x1F_FFFF_FFFF_FFFF * (1_000_000 * (2 * w - 1))) * o <= (0x40_0000_0000_0002
                * x) * o);
            assert(0x1F_FFFF_FFFF_FFFF * (1_000_000 * (2 * w - 1)) <= 0x40_0000_0000_0002 * x);
        }
    } else {
        lemma_pow2_pos(1074);
        precision::ratio_near(1_000_000, sample_rate as nat);
        vstd::arithmetic::div_mod::lemma_basic_div(one() as int, (2 * one()) as int);
        assert(float::round_magnitude(0, -1074) == 0);
    }
    floors_are_the_nearest_samples(us, sample_rate, usize::MAX as int);
}

/// Whether a byte holds a signed number.
pub open spec fn holds(byte: u8, number: int) -> bool {
    -128 <= number < 128 && (number == byte || number == byte - 256)
}

/// The magnitude of a sample is how far its two numbers are from zero,
/// together; there is one for every two bytes.
pub proof fn magnitudes_are_distances(iq: Seq<u8>)
    ensures
        envelope::magnitudes(iq).len() == iq.len() / 2,
        forall|k: int, i: int, q: int|
            #![trigger holds(iq[2 * k], i), holds(iq[2 * k + 1], q)]
            0 <= k < iq.len() / 2 && holds(iq[2 * k], i) && holds(iq[2 * k + 1], q)
                ==> envelope::magnitudes(iq)[k] == (if i < 0 {
                -i
            } else {
                i
            }) + (if q < 0 {
                -q
            } else {
                q
            }),
{
}

/// Whether some bytes, from one of them on, are so many samples of this level,
/// with nothing in quadrature.
pub open spec fn is_tone(bytes: Seq<u8>, start: int, count: int, level: int) -> bool {
    forall|k: int| 0 <= k < count ==> #[trigger] is_sample(bytes, start, k, level)
}

/// Whether a sample has this level, with nothing in quadrature.
pub open spec fn is_sample(bytes: Seq<u8>, start: int, k: int, level: int) -> bool {
    holds(bytes[start + 2 * k], level) && bytes[start + 2 * k + 1] == 0
}

proof fn lemma_tone(timing: i64, amplitude: i8, count: nat, before: Seq<u8>)
    ensures
        is_tone(
            before + synthesis::tone(synthesis::level_of(timing, amplitude), count),
            before.len() as int,
            count as int,
            if timing > 0 {
                amplitude as int
            } else {
                0
            },
        ),
{
    let tone = synthesis::tone(synthesis::level_of(timing, amplitude), count);
    let all = before + tone;
    let start = before.len() as int;
    let level = if timing > 0 {
        amplitude as int
    } else {
        0
    };
    assert forall|k: int| 0 <= k < count implies #[trigger] is_sample(all, start, k, level) by {
        assert(all[start + 2 * k] == tone[2 * k]);
        assert(all[start + 2 * k + 1] == tone[2 * k + 1]);
    }
}

/// Timings are rendered one after the other: each mark as a constant at the
/// amplitude, each space as nothing, for as many samples as it takes.
pub proof fn timings_are_rendered_in_turn(
    timings: Seq<i64>,
    index: int,
    sample_rate: u32,
    amplitude: i8,
)
    requires
        0 <= index < timings.len(),
    ensures
        ({
            let all = synthesis::rendered(timings, sample_rate, amplitude);
            let before = synthesis::rendered(timings.take(index), sample_rate, amplitude);
            let after = synthesis::rendered(timings.take(index + 1), sample_rate, amplitude);
            let count = clock::sample_count(timings[index] as int, sample_rate);
            &&& after.len() == before.len() + 2 * count
            &&& after.len() <= all.len()
            &&& all.take(before.len() as int) == before
            &&& is_tone(
                all,
                before.len() as int,
                count,
                if timings[index] > 0 {
                    amplitude as int
                } else {
                    0
                },
            )
        }),
    decreases timings.len(),
{
    let all = synthesis::rendered(timings, sample_rate, amplitude);
    let before = synthesis::rendered(timings.take(index), sample_rate, amplitude);
    let after = synthesis::rendered(timings.take(index + 1), sample_rate, amplitude);
    let count = clock::sample_count(timings[index] as int, sample_rate);
    clock::sample_count_bounds(timings[index] as int, sample_rate);
    let level = if timings[index] > 0 {
        amplitude as int
    } else {
        0
    };
    let tone = synthesis::tone(synthesis::level_of(timings[index], amplitude), count as nat);
    assert(timings.take(index + 1).drop_last() =~= timings.take(index));
    assert(timings.take(index + 1).last() == timings[index]);
    assert(after == before + tone);
    assert(tone.len() == 2 * count);
    lemma_tone(timings[index], amplitude, count as nat, before);
    if index == timings.len() - 1 {
        assert(timings.take(index + 1) =~= timings);
        assert(all == after);
        assert(all.take(before.len() as int) =~= before);
        assert(is_tone(all, before.len() as int, count, level));
    } else {
        let rest = timings.drop_last();
        timings_are_rendered_in_turn(rest, index, sample_rate, amplitude);
        assert(rest.take(index) =~= timings.take(index));
        assert(rest.take(index + 1) =~= timings.take(index + 1));
        let most = synthesis::rendered(rest, sample_rate, amplitude);
        assert(all.take(before.len() as int) =~= most.take(before.len() as int));
        let start = before.len() as int;
        assert forall|k: int| 0 <= k < count implies #[trigger] is_sample(all, start, k, level) by {
            assert(is_sample(most, start, k, level));
            assert(all[start + 2 * k] == most[start + 2 * k]);
            assert(all[start + 2 * k + 1] == most[start + 2 * k + 1]);
        }
        assert(is_tone(all, start, count, level));
    }
}

/// A frame is sent once and then as often as it is repeated, each time after a
/// gap of nothing that takes its own samples.
pub proof fn repeats_follow_gaps(
    timings: Seq<i64>,
    repeat: u32,
    gap_us: u32,
    sample_rate: u32,
    amplitude: i8,
    index: int,
)
    requires
        0 <= index <= repeat,
    ensures
        ({
            let all = synthesis::transmission(timings, repeat, gap_us, sample_rate, amplitude);
            let frame = synthesis::rendered(timings, sample_rate, amplitude);
            let gap = 2 * clock::sample_count(gap_us as int, sample_rate);
            let start = index * (frame.len() + gap);
            &&& all.len() == frame.len() + repeat * (frame.len() + gap)
            &&& 0 <= start
            &&& start + frame.len() <= all.len()
            &&& all.subrange(start, start + frame.len()) == frame
            &&& index < repeat ==> start + frame.len() + gap <= all.len() && forall|k: int|
                start + frame.len() <= k < start + frame.len() + gap ==> all[k] == 0
        }),
{
    let frame = synthesis::rendered(timings, sample_rate, amplitude);
    let silence = seq![(-gap_us) as i64];
    let gap = synthesis::rendered(silence, sample_rate, amplitude);
    let count = clock::sample_count(-(gap_us as int), sample_rate);
    clock::sample_count_bounds(-(gap_us as int), sample_rate);
    assert(silence.drop_last() =~= Seq::<i64>::empty());
    assert(synthesis::rendered(silence.drop_last(), sample_rate, amplitude) =~= Seq::<u8>::empty());
    assert(silence.last() == -gap_us);
    assert(gap =~= synthesis::tone(0, count as nat));
    assert(clock::sample_count(gap_us as int, sample_rate) == count);
    lemma_repeat(frame, gap, repeat as nat, index as nat);
    let each = frame.len() + gap.len();
    assert(repeat * (gap.len() + frame.len()) == repeat * each);
    synthesis::repeated_length(frame, gap, repeat as nat);
}

proof fn lemma_repeat(frame: Seq<u8>, gap: Seq<u8>, repeat: nat, index: nat)
    requires
        index <= repeat,
        forall|k: int| 0 <= k < gap.len() ==> #[trigger] gap[k] == 0,
    ensures
        ({
            let all = synthesis::repeated(frame, gap, repeat);
            let start = index * (frame.len() + gap.len());
            &&& 0 <= start
            &&& start + frame.len() <= all.len()
            &&& all.subrange(start as int, (start + frame.len()) as int) == frame
            &&& index < repeat ==> start + frame.len() + gap.len() <= all.len() && forall|k: int|
                start + frame.len() <= k < start + frame.len() + gap.len() ==> all[k] == 0
        }),
    decreases repeat,
{
    let all = synthesis::repeated(frame, gap, repeat);
    let each = frame.len() + gap.len();
    let start = index * each;
    assert(0 <= start) by (nonlinear_arith)
        requires
            start == index * each,
    ;
    synthesis::repeated_length(frame, gap, repeat);
    assert(gap.len() + frame.len() == each);
    if repeat == 0 {
        assert(start == 0) by (nonlinear_arith)
            requires
                start == index * each,
                index == 0,
        ;
        assert(all.subrange(0, frame.len() as int) =~= frame);
    } else {
        let fewer = (repeat - 1) as nat;
        let before = synthesis::repeated(frame, gap, fewer);
        synthesis::repeated_length(frame, gap, fewer);
        assert(repeat * each == fewer * each + each) by (nonlinear_arith)
            requires
                repeat == fewer + 1,
        ;
        if index == repeat {
            assert(start == before.len() + gap.len());
            assert(all.subrange(start as int, (start + frame.len()) as int) =~= frame);
        } else {
            lemma_repeat(frame, gap, fewer, index);
            assert(all.subrange(start as int, (start + frame.len()) as int) =~= before.subrange(
                start as int,
                (start + frame.len()) as int,
            ));
            if index < fewer {
                assert forall|k: int| start + frame.len() <= k < start + frame.len()
                    + gap.len() implies all[k] == 0 by {
                    assert(all[k] == before[k]);
                }
            } else {
                assert(start + frame.len() == before.len());
                assert forall|k: int| start + frame.len() <= k < start + frame.len()
                    + gap.len() implies all[k] == 0 by {
                    assert(all[k] == gap[k - before.len()]);
                }
            }
        }
    }
}

/// Two durations last as long as both, or as long as can be told.
pub proof fn durations_stop_at_the_longest(us: i64, more: i64)
    ensures
        i64::MIN <= us + more <= i64::MAX ==> clock::extended(us, more) == us + more,
        us + more > i64::MAX ==> clock::extended(us, more) == i64::MAX,
        us + more < i64::MIN ==> clock::extended(us, more) == i64::MIN,
{
}

} // verus!
