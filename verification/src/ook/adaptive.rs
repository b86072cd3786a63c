//! Where the adaptive threshold comes to lie, in plain numbers.

use vstd::arithmetic::power2::*;
use vstd::prelude::*;

use crate::float;
use crate::float::error;
use crate::float::error::{one, tame, units, within};
use crate::float::Binary;
use crate::ook::detector;
use crate::ook::detector::{DetectorConfig, Listening};
use crate::ook::histogram;
use crate::ook::histogram::Tally;
use crate::ook::quantiles;
use crate::ook::quantiles::is_quantile;
use crate::ook::statistics;

verus! {

/// The constant that turns a quartile into a standard deviation is 0.674.
proof fn lemma_quartile_sigma()
    ensures
        tame(float::decode(detector::QUARTILE_SIGMA_BITS), 53),
        within(
            (units(float::decode(detector::QUARTILE_SIGMA_BITS)) * 500) as int,
            (337 * one()) as int,
            1,
        ),
        units(float::decode(detector::QUARTILE_SIGMA_BITS)) > 0,
{
    lemma2_to64();
    lemma2_to64_rest();
    lemma_pow2_adds(1021, 53);
    let w = pow2(1021) as int;
    assert(one() == w * 0x20_0000_0000_0000);
    lemma_pow2_pos(1021);
    let q = units(float::decode(detector::QUARTILE_SIGMA_BITS)) as int;
    assert(q == 0x15_9168_72B0_20C5 * w);
    assert(0x20_0000_0000_0000 * (q * 500 - 337 * one()) <= 1 * (337 * one()));
    assert(0x20_0000_0000_0000 * (337 * one() - q * 500) <= 1 * (337 * one()));
}

/// So many times the spread in standard deviations, to within rounding.
proof fn lemma_spread(gap: nat, sigmas: Binary)
    requires
        0 < gap <= 65_535,
        tame(sigmas, 212),
    ensures
        ({
            let sigma = float::quotient(
                float::from_nat(gap),
                float::decode(detector::QUARTILE_SIGMA_BITS),
            );
            let margin = float::product(sigma, sigmas);
            &&& margin matches Binary::Finite { negative, exponent, .. } && !negative && exponent
                >= -1074
            &&& within((337 * units(margin)) as int, (500 * (gap * units(sigmas))) as int, 6)
        }),
{
    lemma_quartile_sigma();
    lemma_pow2_pos(1074);
    let bits = float::decode(detector::QUARTILE_SIGMA_BITS);
    let q = units(bits);
    let o = one();
    let u = units(sigmas);
    error::from_nat_exact(gap);
    error::quotient_near(float::from_nat(gap), bits, 53, 53);
    let sigma = float::quotient(float::from_nat(gap), bits);
    error::product_near(sigma, sigmas, 212, 212);
    let margin = float::product(sigma, sigmas);
    let s = units(sigma);
    let p = units(margin);
    let target = gap * u;
    // The product, times the constant, against the spread.
    error::within_scaled((p * o) as int, (s * u) as int, 1, q);
    error::within_scaled((s * q) as int, ((gap * o) * o) as int, 1, u);
    assert((s * u) * q == (s * q) * u) by (nonlinear_arith);
    assert(((gap * o) * o) * u == (target * o) * o) by (nonlinear_arith)
        requires
            target == gap * u,
    ;
    assert(0 <= (target * o) * o) by (nonlinear_arith);
    error::within_chained(
        ((p * o) * q) as int,
        ((s * u) * q) as int,
        ((target * o) * o) as int,
        1,
        1,
    );
    error::within_scaled(((p * o) * q) as int, ((target * o) * o) as int, 3, 500);
    assert(within((337 * o) as int, (500 * q) as int, 2)) by {
        let a = 337 * o as int;
        let b = 500 * q as int;
        assert(q * 500 == b);
        assert(0x20_0000_0000_0000 * (b - a) <= a);
        assert(0x20_0000_0000_0000 * (a - b) <= a);
        assert(a <= 2 * b);
    }
    error::within_scaled((337 * o) as int, (500 * q) as int, 2, p * o);
    assert((500 * q) * (p * o) == ((p * o) * q) * 500) by (nonlinear_arith);
    assert(0 <= ((target * o) * o) * 500) by (nonlinear_arith);
    error::within_chained(
        ((337 * o) * (p * o)) as int,
        ((500 * q) * (p * o)) as int,
        (((target * o) * o) * 500) as int,
        2,
        3,
    );
    assert((337 * o) * (p * o) == ((337 * p) * o) * o) by (nonlinear_arith);
    assert(((target * o) * o) * 500 == ((500 * target) * o) * o) by (nonlinear_arith);
    error::within_divided(((337 * p) * o) as int, ((500 * target) * o) as int, 6, o);
    error::within_divided((337 * p) as int, (500 * target) as int, 6, o);
}

/// The margin that the noise spread asks for is so many standard deviations,
/// rounded to the nearest level.
proof fn lemma_margin(gap: nat, sigmas: Binary, times: nat)
    requires
        gap <= 65_535,
        0 < times <= 1000,
        tame(sigmas, 212),
        units(sigmas) == times * one(),
    ensures
        ({
            let sigma = float::quotient(
                float::from_nat(gap),
                float::decode(detector::QUARTILE_SIGMA_BITS),
            );
            float::round_into(float::product(sigma, sigmas), 0, 65_535) == float::clamped(
                ((1000 * (times * gap) + 337) / 674) as int,
                0,
                65_535,
            )
        }),
{
    let sigma = float::quotient(float::from_nat(gap), float::decode(detector::QUARTILE_SIGMA_BITS));
    let margin = float::product(sigma, sigmas);
    lemma_pow2_pos(1074);
    if gap == 0 {
        lemma_quartile_sigma();
        vstd::arithmetic::div_mod::lemma_basic_div(one() as int, (2 * one()) as int);
        assert(float::round_magnitude(0, -1074) == 0);
        assert(times * gap == 0) by (nonlinear_arith)
            requires
                gap == 0,
        ;
    } else {
        lemma_spread(gap, sigmas);
        let target = times * gap;
        assert(500 * (gap * (times * one())) == (500 * target) * one()) by (nonlinear_arith)
            requires
                target == times * gap,
        ;
        assert(0 < target <= 65_535_000) by (nonlinear_arith)
            requires
                target == times * gap,
                0 < times <= 1000,
                0 < gap <= 65_535,
        ;
        let p = units(margin) as int;
        let o = one() as int;
        let x = (500 * target) as int;
        match margin {
            Binary::Finite { mantissa, exponent, .. } => {
                error::round_in_units(mantissa, exponent);
                let w = float::round_magnitude(mantissa, exponent) as int;
                assert((2 * w - 1) * 337 <= 2 * x && 2 * x <= (2 * w + 1) * 337)
                    by (nonlinear_arith)
                    requires
                        (2 * w - 1) * o <= 2 * p,
                        2 * p < (2 * w + 1) * o,
                        0x20_0000_0000_0000 * (337 * p - x * o) <= 6 * (x * o),
                        0x20_0000_0000_0000 * (x * o - 337 * p) <= 6 * (x * o),
                        0 < x <= 500 * 65_535_000,
                        o > 0,
                {
                    assert(x * o <= (500 * 65_535_000) * o);
                    assert(12 * (x * o) < 0x20_0000_0000_0000 * o);
                    assert(2 * (337 * p - x * o) < o);
                    assert(2 * (x * o - 337 * p) < o);
                    assert(((2 * w - 1) * 337) * o <= 2 * (337 * p));
                    assert(((2 * w - 1) * 337) * o < (2 * x + 1) * o);
                    assert(2 * (337 * p) <= ((2 * w + 1) * 337) * o);
                    assert((2 * x) * o < ((2 * w + 1) * 337 + 1) * o);
                }
                assert(1000 * target == 2 * x);
                assert(w == (1000 * target + 337) as int / 674);
            },
            _ => {},
        }
    }
}

/// Half of a span, rounded to the nearest level, halves upwards.
proof fn lemma_half_way(base: int, span: nat)
    requires
        0 <= base <= 256,
        span <= 256,
    ensures
        histogram::raised(base, span as int, float::decode(0x3FE0_0000_0000_0000)) == base + (span
            + 1) / 2,
{
    let half = float::product(float::from_nat(span), float::decode(0x3FE0_0000_0000_0000));
    lemma_pow2_pos(1074);
    if span == 0 {
        vstd::arithmetic::div_mod::lemma_basic_div(one() as int, (2 * one()) as int);
        assert(float::round_magnitude(0, -1074) == 0);
    } else {
        error::half_is_exact(span);
        let p = units(half) as int;
        let o = one() as int;
        match half {
            Binary::Finite { mantissa, exponent, .. } => {
                error::round_in_units(mantissa, exponent);
                let w = float::round_magnitude(mantissa, exponent) as int;
                assert(2 * w - 1 <= span < 2 * w + 1) by (nonlinear_arith)
                    requires
                        (2 * w - 1) * o <= 2 * p,
                        2 * p < (2 * w + 1) * o,
                        2 * p == span * o,
                        o > 0,
                ;
            },
            _ => {},
        }
    }
}

/// The level sliced between noise and signal lies that fraction of the way
/// up, to the nearest level.
pub proof fn slicing_goes_a_fraction_up(tally: Tally, fraction: Binary)
    requires
        0 <= tally.median() < tally.high() <= 256,
        tame(fraction, 212),
        units(fraction) <= one(),
    ensures
        ({
            let up = tally.sliced(fraction) - tally.median();
            let exact = (tally.high() - tally.median()) * units(fraction);
            &&& 0x20_0000_0000_0000 * ((2 * up - 1) * one()) <= 0x20_0000_0000_0001 * (2 * exact)
            &&& 0x20_0000_0000_0000 * ((2 * up + 1) * one()) > 0x1F_FFFF_FFFF_FFFF * (2 * exact)
        }),
{
    let span = (tally.high() - tally.median()) as nat;
    let value = float::product(float::from_nat(span), fraction);
    lemma_pow2_pos(1074);
    error::from_nat_exact(span);
    error::product_near(float::from_nat(span), fraction, 53, 212);
    let o = one();
    let u = units(fraction);
    let p = units(value);
    let exact = span * u;
    assert((span * o) * u == exact * o) by (nonlinear_arith)
        requires
            exact == span * u,
    ;
    error::within_divided(p as int, exact as int, 1, o);
    assert(exact <= 256 * o) by (nonlinear_arith)
        requires
            exact == span * u,
            span <= 256,
            u <= o,
    ;
    match value {
        Binary::Finite { mantissa, exponent, .. } => {
            error::round_in_units(mantissa, exponent);
            let w = float::round_magnitude(mantissa, exponent) as int;
            assert(w <= 1000) by (nonlinear_arith)
                requires
                    (2 * w - 1) * o <= 2 * p,
                    0x20_0000_0000_0000 * (p - exact) <= 1 * exact,
                    exact <= 256 * o,
                    o > 0,
            {
                assert(p <= 2 * exact);
                assert((2 * w - 1) * o <= 1024 * o);
            }
            assert(tally.sliced(fraction) - tally.median() == w);
        },
        _ => {},
    }
}

/// The highest of three levels.
pub open spec fn highest(a: int, b: int, c: int) -> int {
    if a >= b && a >= c {
        a
    } else if b >= c {
        b
    } else {
        c
    }
}

/// Whatever else a window holds, the threshold that follows from it stands so
/// many robust standard deviations above the median, a standard deviation
/// being the distance from the median to the third quartile over 0.674; and
/// where it stands higher, that is for the level sliced between noise and
/// signal, or to stay clear of zero.
pub proof fn noise_stays_below_the_threshold(config: DetectorConfig, tally: Tally, times: nat)
    requires
        0 < times <= 1000,
        tame(config.noise_sigmas@, 212),
        units(config.noise_sigmas@) == times * one(),
        0 <= tally.median() <= 256,
        tally.percentile(float::decode(0x3FE8_0000_0000_0000)) <= 256,
    ensures
        ({
            let floor = tally.median();
            let quartile = tally.percentile(float::decode(0x3FE8_0000_0000_0000));
            let gap = if quartile > floor {
                quartile - floor
            } else {
                0
            };
            let margin = (1000 * (times * gap) + 337) / 674;
            let robust = if floor + margin > 65_535 {
                65_535
            } else {
                floor + margin
            };
            config.threshold(tally) == highest(
                1,
                robust,
                tally.sliced(config.threshold_fraction@),
            )
        }),
{
    let floor = tally.median();
    let quartile = tally.percentile(float::decode(0x3FE8_0000_0000_0000));
    let gap = histogram::gap(floor, quartile);
    lemma_margin(gap as nat, config.noise_sigmas@, times);
    assert(0 <= times * gap) by (nonlinear_arith)
        requires
            gap >= 0,
    ;
    assert(config.robust_floor(tally) == float::clamped(
        floor + float::clamped(((1000 * (times * gap) + 337) / 674) as int, 0, 65_535),
        0,
        65_535,
    ));
    assert(0 <= tally.sliced(config.threshold_fraction@) <= 65_535);
}

/// The same for any number of standard deviations, whole or not: the threshold
/// stands no more than half a level, and what rounding takes, below it.
pub proof fn any_margin_is_kept(config: DetectorConfig, tally: Tally)
    requires
        tame(config.noise_sigmas@, 212),
        0 <= tally.median() <= 256,
        tally.median() < tally.percentile(float::decode(0x3FE8_0000_0000_0000)) <= 256,
        config.threshold(tally) < 65_535,
    ensures
        ({
            let floor = tally.median();
            let gap = tally.percentile(float::decode(0x3FE8_0000_0000_0000)) - floor;
            let above = config.threshold(tally) - floor;
            0x20_0000_0000_0000 * (337 * ((2 * above + 1) * one())) > 0x1F_FFFF_FFFF_FFFA * (1000 * (
            gap * units(config.noise_sigmas@)))
        }),
{
    let floor = tally.median();
    let quartile = tally.percentile(float::decode(0x3FE8_0000_0000_0000));
    let gap = (quartile - floor) as nat;
    let sigma = float::quotient(
        float::from_nat(gap),
        float::decode(detector::QUARTILE_SIGMA_BITS),
    );
    let margin = float::product(sigma, config.noise_sigmas@);
    lemma_pow2_pos(1074);
    lemma_spread(gap, config.noise_sigmas@);
    let above = config.threshold(tally) - floor;
    let o = one() as int;
    let p = units(margin) as int;
    let x = (gap * units(config.noise_sigmas@)) as int;
    match margin {
        Binary::Finite { mantissa, exponent, .. } => {
            error::round_in_units(mantissa, exponent);
            let w = float::round_magnitude(mantissa, exponent) as int;
            assert(w <= above);
            assert(0x20_0000_0000_0000 * (337 * ((2 * above + 1) * o)) > 0x1F_FFFF_FFFF_FFFA * (1000
                * x)) by (nonlinear_arith)
                requires
                    2 * p < (2 * w + 1) * o,
                    w <= above,
                    0x20_0000_0000_0000 * (500 * x - 337 * p) <= 6 * (500 * x),
                    o > 0,
            {
                assert((2 * w + 1) * o <= (2 * above + 1) * o);
                assert(2 * p < (2 * above + 1) * o);
            }
        },
        _ => {},
    }
}

/// Eight, in units of the smallest double.
proof fn lemma_eight()
    ensures
        tame(float::decode(0x4020_0000_0000_0000), 212),
        units(float::decode(0x4020_0000_0000_0000)) == 8 * one(),
{
    lemma2_to64();
    lemma2_to64_rest();
    lemma_pow2_adds(1025, 49);
    lemma_pow2_unfold(1074);
    let value = float::decode(0x4020_0000_0000_0000);
    assert(value == (Binary::Finite {
        negative: false,
        mantissa: 0x10_0000_0000_0000,
        exponent: -49,
    }));
    assert(pow2(1025) * 0x2_0000_0000_0000 == one());
    assert(0x10_0000_0000_0000 * pow2(1025) == 8 * (pow2(1025) * 0x2_0000_0000_0000))
        by (nonlinear_arith);
}

/// The magnitudes of a window in progress are all counted, and nothing else.
proof fn lemma_window(state: Listening, mags: Seq<u16>)
    requires
        state.seen == 0,
        state.tally == Tally::empty(),
        mags.len() < state.config.window_samples,
    ensures
        ({
            let after = state.steps(mags).0;
            &&& after.config == state.config
            &&& after.threshold == state.threshold
            &&& after.seen == mags.len()
            &&& after.tally == histogram::tally(mags)
        }),
    decreases mags.len(),
{
    if mags.len() == 0 {
        histogram::tally_empty();
        assert(mags =~= Seq::<u16>::empty());
    } else {
        let rest = mags.drop_last();
        lemma_window(state, rest);
        histogram::tally_push(rest, mags.last());
        assert(rest.push(mags.last()) =~= mags);
        let before = state.steps(rest).0;
        let counted = Listening {
            tally: before.tally.with(mags.last()),
            seen: before.seen + 1,
            ..before
        };
        match before.threshold {
            Some(threshold) => {
                detector::slicing_keeps_the_window(counted, mags.last(), threshold);
            },
            None => {},
        }
    }
}

proof fn lemma_whole_window(state: Listening, mags: Seq<u16>)
    requires
        state.seen == 0,
        state.tally == Tally::empty(),
        0 < mags.len() == state.config.window_samples,
    ensures
        ({
            let after = state.steps(mags).0;
            &&& after.config == state.config
            &&& after.threshold == Some(state.config.threshold(histogram::tally(mags)))
            &&& after.seen == 0
            &&& after.tally == Tally::empty()
        }),
{
    let rest = mags.drop_last();
    lemma_window(state, rest);
    histogram::tally_push(rest, mags.last());
    assert(rest.push(mags.last()) =~= mags);
    let before = state.steps(rest).0;
    let counted = Listening {
        tally: before.tally.with(mags.last()),
        seen: before.seen + 1,
        ..before
    };
    match before.threshold {
        Some(threshold) => {
            detector::slicing_keeps_the_window(counted, mags.last(), threshold);
        },
        None => {},
    }
}

/// A detector with the usual settings measures its band window by window, one
/// second each. Let half of a window's samples lie at or below `floor`, three
/// quarters at or below `quartile`, and 999 in a thousand at or below
/// `signal`. The threshold that holds through the next window is eight times
/// `(quartile - floor) / 0.674` above the floor, or half way from the floor
/// to the signal where that is higher, to the nearest level, and one at the
/// least; and then the next window begins.
pub proof fn a_window_sets_the_threshold(
    state: Listening,
    sample_rate: u32,
    mags: Seq<u16>,
    floor: int,
    quartile: int,
    signal: int,
)
    requires
        state.config == DetectorConfig::usual(sample_rate),
        state.seen == 0,
        state.tally == Tally::empty(),
        0 < mags.len() == sample_rate,
        mags.len() < usize::MAX,
        quantiles::sampled(mags),
        is_quantile(mags, 1, 2, floor),
        is_quantile(mags, 3, 4, quartile),
        is_quantile(mags, 999, 1000, signal),
    ensures
        ({
            let after = state.steps(mags).0;
            &&& after.threshold == Some(
                highest(
                    1,
                    floor + (8000 * (quartile - floor) + 337) / 674,
                    floor + (signal - floor + 1) / 2,
                ) as u16,
            )
            &&& after.threshold->0 == highest(
                1,
                floor + (8000 * (quartile - floor) + 337) / 674,
                floor + (signal - floor + 1) / 2,
            )
            &&& after.config == state.config
            &&& after.seen == 0
            &&& after.tally == Tally::empty()
        }),
{
    let tally = histogram::tally(mags);
    lemma_whole_window(state, mags);
    quantiles::levels_are_counted(mags);
    quantiles::quantiles_are_unique(mags, 1, 2, floor, tally.median());
    quantiles::quantiles_are_unique(
        mags,
        3,
        4,
        quartile,
        tally.percentile(float::decode(histogram::THREE_QUARTERS_BITS)),
    );
    quantiles::quantiles_are_unique(mags, 999, 1000, signal, tally.high());
    lemma_eight();
    noise_stays_below_the_threshold(state.config, tally, 8);
    lemma_half_way(floor, (signal - floor) as nat);
}

/// A quiet band does not slice its own noise into frames: after a window in
/// which every sample stays half a level short of eight robust standard
/// deviations above the median, no such sample reaches the threshold.
pub proof fn noise_is_not_sliced(
    state: Listening,
    sample_rate: u32,
    mags: Seq<u16>,
    floor: int,
    quartile: int,
    magnitude: u16,
)
    requires
        state.config == DetectorConfig::usual(sample_rate),
        state.seen == 0,
        state.tally == Tally::empty(),
        0 < mags.len() == sample_rate,
        mags.len() < usize::MAX,
        quantiles::sampled(mags),
        is_quantile(mags, 1, 2, floor),
        is_quantile(mags, 3, 4, quartile),
        674 * (magnitude - floor) + 337 <= 8000 * (quartile - floor),
    ensures
        state.steps(mags).0.threshold matches Some(threshold) && magnitude < threshold,
{
    quantiles::levels_are_counted(mags);
    let signal = histogram::tally(mags).high();
    a_window_sets_the_threshold(state, sample_rate, mags, floor, quartile, signal);
}

/// Between two windows the threshold stands still, whatever is heard.
pub proof fn thresholds_stand_through_a_window(state: Listening, mags: Seq<u16>)
    requires
        state.seen == 0,
        state.tally == Tally::empty(),
        mags.len() < state.config.window_samples,
    ensures
        state.steps(mags).0.threshold == state.threshold,
        state.steps(mags).0.config == state.config,
{
    lemma_window(state, mags);
}

/// Unless something else is asked for, glitches are what is shorter than 40
/// microseconds, a silence of three milliseconds ends a burst, a burst has eight
/// edges at the least, and a window is a second.
pub proof fn the_usual_settings(sample_rate: u32)
    ensures
        ({
            let config = DetectorConfig::usual(sample_rate);
            &&& config.sample_rate == sample_rate
            &&& config.min_us == 40
            &&& config.gap_us == 3_000
            &&& config.min_edges == 8
            &&& config.window_samples == sample_rate as usize
            &&& units(config.noise_sigmas@) == 8 * one()
            &&& 2 * units(config.threshold_fraction@) == one()
        }),
{
    lemma_eight();
    lemma2_to64();
    lemma2_to64_rest();
    lemma_pow2_adds(1021, 53);
    assert(units(float::decode(0x3FE0_0000_0000_0000)) == 0x10_0000_0000_0000 * pow2(1021));
}

} // verus!
