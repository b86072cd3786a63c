//! What the amplitude statistics are immune to.

use vstd::arithmetic::power2::*;
use vstd::prelude::*;

use crate::float;
use crate::float::error;
use crate::float::error::{near, one, tame, units};
use crate::float::Binary;
use crate::ook::histogram;
use crate::ook::histogram::Tally;
use crate::ook::precision;

verus! {

/// The largest window the statistics are exact for.
pub const LARGEST_WINDOW: u64 = 0x100_0000_0000;

/// A percentile is the least level with enough magnitudes at or below it, or
/// the last level.
pub proof fn percentile_is_least(counts: Seq<nat>, target: int, start: int)
    requires
        0 <= start < histogram::MAG_LEVELS,
    ensures
        ({
            let found = histogram::quantile_from(counts, target, start);
            &&& start <= found < histogram::MAG_LEVELS
            &&& found < histogram::MAG_LEVELS - 1 ==> histogram::below(counts, found + 1) >= target
            &&& forall|level: int|
                start <= level < found ==> #[trigger] histogram::below(counts, level + 1) < target
        }),
    decreases histogram::MAG_LEVELS - start,
{
    if start < histogram::MAG_LEVELS - 1 && histogram::below(counts, start + 1) < target {
        percentile_is_least(counts, target, start + 1);
    }
}

/// A higher target is found no lower.
proof fn lemma_quantile_order(counts: Seq<nat>, low: int, high: int)
    requires
        low <= high,
    ensures
        histogram::quantile_from(counts, low, 0) <= histogram::quantile_from(counts, high, 0),
{
    percentile_is_least(counts, low, 0);
    percentile_is_least(counts, high, 0);
    let a = histogram::quantile_from(counts, low, 0);
    let b = histogram::quantile_from(counts, high, 0);
    if a > b {
        assert(histogram::below(counts, b + 1) < low);
    }
}

/// What a share of a window asks for, in units of the smallest double.
pub(crate) proof fn lemma_target(tally: Tally, share: Binary, num: nat, den: nat)
    requires
        0 < tally.total() <= LARGEST_WINDOW,
        tame(share, 212),
        near(share, num, den, 1),
        0 < num <= den <= 1000,
    ensures
        ({
            let c = tally.target(share);
            let exact = tally.total() * num;
            &&& 0x20_0000_0000_0000 * ((c - 1) * den) < 0x20_0000_0000_0004 * exact
            &&& 0x20_0000_0000_0000 * (c * den) >= 0x1F_FFFF_FFFF_FFFC * exact
        }) || tally.target(share) == usize::MAX,
        tally.target(share) <= usize::MAX,
{
    let total = tally.total();
    let product = float::product(float::from_nat(total), share);
    precision::multiple_near(total, 0, share, num, den);
    lemma_pow2_pos(1074);
    let p = units(product) as int;
    let o = one() as int;
    let c = tally.target(share);
    let exact = total * num;
    match product {
        Binary::Finite { mantissa, exponent, .. } => {
            error::ceil_in_units(mantissa, exponent);
            let whole = float::ceil_magnitude(mantissa, exponent);
            if c != usize::MAX {
                assert(c == whole);
                assert(0x20_0000_0000_0000 * ((c - 1) * den) < 0x20_0000_0000_0004 * exact)
                    by (nonlinear_arith)
                    requires
                        0x20_0000_0000_0000 * (p * den - exact * o) <= 4 * (exact * o),
                        (c - 1) * o < p,
                        o > 0,
                        den > 0,
                {
                    assert(((c - 1) * o) * den < p * den);
                    assert(0x20_0000_0000_0000 * (((c - 1) * o) * den) < 0x20_0000_0000_0004 * (
                    exact * o));
                    assert(((c - 1) * o) * den == ((c - 1) * den) * o);
                    assert((0x20_0000_0000_0000 * ((c - 1) * den)) * o < (0x20_0000_0000_0004
                        * exact) * o);
                }
                assert(0x20_0000_0000_0000 * (c * den) >= 0x1F_FFFF_FFFF_FFFC * exact)
                    by (nonlinear_arith)
                    requires
                        0x20_0000_0000_0000 * (exact * o - p * den) <= 4 * (exact * o),
                        c * o >= p,
                        o > 0,
                        den > 0,
                {
                    assert((c * o) * den >= p * den);
                    assert(0x20_0000_0000_0000 * ((c * o) * den) >= 0x1F_FFFF_FFFF_FFFC * (exact
                        * o));
                    assert((c * o) * den == (c * den) * o);
                    assert((0x20_0000_0000_0000 * (c * den)) * o >= (0x1F_FFFF_FFFF_FFFC * exact)
                        * o);
                }
            }
        },
        _ => {},
    }
}

/// The shares that are asked for, as ratios.
pub(crate) proof fn lemma_shares()
    ensures
        tame(float::decode(histogram::HALF_BITS), 53),
        near(float::decode(histogram::HALF_BITS), 1, 2, 1),
        tame(float::decode(histogram::THREE_QUARTERS_BITS), 53),
        near(float::decode(histogram::THREE_QUARTERS_BITS), 3, 4, 1),
        tame(float::decode(histogram::NEARLY_ALL_BITS), 53),
        near(float::decode(histogram::NEARLY_ALL_BITS), 999, 1000, 1),
{
    lemma2_to64();
    lemma2_to64_rest();
    lemma_pow2_adds(1021, 53);
    let w = pow2(1021) as int;
    assert(one() == w * 0x20_0000_0000_0000);
    lemma_pow2_pos(1021);
    assert(units(float::decode(histogram::HALF_BITS)) == 0x10_0000_0000_0000 * w);
    assert(units(float::decode(histogram::THREE_QUARTERS_BITS)) == 0x18_0000_0000_0000 * w);
    assert(units(float::decode(histogram::NEARLY_ALL_BITS)) == 0x1F_F7CE_D916_872B * w);
    let half = units(float::decode(histogram::HALF_BITS)) as int;
    let quarters = units(float::decode(histogram::THREE_QUARTERS_BITS)) as int;
    let nearly = units(float::decode(histogram::NEARLY_ALL_BITS)) as int;
    assert(half * 2 == 1 * one());
    assert(quarters * 4 == 3 * one());
    assert(0x20_0000_0000_0000 * (nearly * 1000 - 999 * one()) <= 1 * (999 * one()));
    assert(0x20_0000_0000_0000 * (999 * one() - nearly * 1000) <= 1 * (999 * one()));
}

/// Where fewer magnitudes lie above a level than a percentile leaves out, the
/// percentile does not rise above it.
proof fn lemma_minority(tally: Tally, share: Binary, num: nat, den: nat, level: int)
    requires
        0 < tally.total() <= LARGEST_WINDOW,
        tally.total() < usize::MAX,
        tame(share, 212),
        near(share, num, den, 1),
        0 < num < den <= 1000,
        0 <= level < histogram::MAG_LEVELS - 1,
        den * histogram::below(tally.counts, level + 1) > num * tally.total(),
    ensures
        tally.percentile(share) <= level,
{
    let total = tally.total();
    let quiet = histogram::below(tally.counts, level + 1);
    let c = tally.target(share);
    histogram::below_grows(tally.counts, level + 1, histogram::MAG_LEVELS as int);
    lemma_target(tally, share, num, den);
    let exact = total * num;
    assert(exact == num * total) by (nonlinear_arith)
        requires
            exact == total * num,
    ;
    assert(exact <= 0x100_0000_0000 * 1000) by (nonlinear_arith)
        requires
            exact == total * num,
            total <= 0x100_0000_0000,
            num <= 1000,
    ;
    if c > quiet {
        if c == usize::MAX {
            lemma_not_that_many(tally, share, num, den);
        }
        assert((c - 1) * den >= quiet * den) by (nonlinear_arith)
            requires
                c - 1 >= quiet,
                den > 0,
        ;
        assert(quiet * den == den * quiet) by (nonlinear_arith);
        assert(false);
    }
    percentile_is_least(tally.counts, c, 0);
}

/// A share of a window is never more than the window.
pub(crate) proof fn lemma_not_that_many(tally: Tally, share: Binary, num: nat, den: nat)
    requires
        0 < tally.total() <= LARGEST_WINDOW,
        tally.total() < usize::MAX,
        tame(share, 212),
        near(share, num, den, 1),
        0 < num < den <= 1000,
    ensures
        tally.target(share) < usize::MAX,
{
    let total = tally.total();
    let product = float::product(float::from_nat(total), share);
    precision::multiple_near(total, 0, share, num, den);
    lemma_pow2_pos(1074);
    let p = units(product) as int;
    let o = one() as int;
    let exact = total * num;
    match product {
        Binary::Finite { mantissa, exponent, .. } => {
            error::ceil_in_units(mantissa, exponent);
            let whole = float::ceil_magnitude(mantissa, exponent);
            if whole > total {
                assert(exact <= 0x100_0000_0000 * 1000 && total * den >= exact + total)
                    by (nonlinear_arith)
                    requires
                        exact == total * num,
                        total <= 0x100_0000_0000,
                        num <= 1000,
                        den >= num + 1,
                ;
                assert(false) by (nonlinear_arith)
                    requires
                        0x20_0000_0000_0000 * (p * den - exact * o) <= 4 * (exact * o),
                        (whole - 1) * o < p,
                        whole - 1 >= total,
                        o > 0,
                        den > 0,
                        total >= 1,
                        exact <= 0x100_0000_0000 * 1000,
                        total * den >= exact + total,
                {
                    assert(total * o <= (whole - 1) * o);
                    assert((total * o) * den <= p * den);
                    assert((total * o) * den == (total * den) * o);
                    assert((total * den) * o >= (exact + total) * o);
                    assert((exact + total) * o == exact * o + total * o);
                    assert(total * o >= o);
                    assert(0x20_0000_0000_0000 * (exact * o + o) <= 0x20_0000_0000_0004 * (exact
                        * o));
                    assert(exact * o <= (0x100_0000_0000 * 1000) * o);
                }
            }
        },
        _ => {},
    }
}

/// The median is the noise floor: a carrier present for less than half the
/// window does not raise it.
pub proof fn carrier_does_not_raise_the_median(tally: Tally, level: int)
    requires
        0 < tally.total() <= LARGEST_WINDOW,
        tally.total() < usize::MAX,
        0 <= level < histogram::MAG_LEVELS - 1,
        2 * (tally.total() - histogram::below(tally.counts, level + 1)) < tally.total(),
    ensures
        tally.median() <= level,
{
    lemma_shares();
    histogram::below_grows(tally.counts, level + 1, histogram::MAG_LEVELS as int);
    lemma_minority(tally, float::decode(histogram::HALF_BITS), 1, 2, level);
}

/// The third quartile measures the noise: a burst that occupies less than a
/// quarter of the window does not raise it.
pub proof fn bursts_do_not_raise_the_quartile(tally: Tally, level: int)
    requires
        0 < tally.total() <= LARGEST_WINDOW,
        tally.total() < usize::MAX,
        0 <= level < histogram::MAG_LEVELS - 1,
        4 * (tally.total() - histogram::below(tally.counts, level + 1)) < tally.total(),
    ensures
        tally.percentile(float::decode(histogram::THREE_QUARTERS_BITS)) <= level,
{
    lemma_shares();
    histogram::below_grows(tally.counts, level + 1, histogram::MAG_LEVELS as int);
    lemma_minority(tally, float::decode(histogram::THREE_QUARTERS_BITS), 3, 4, level);
}

/// A stray spike, up to a thousandth of the window, cannot drag the signal
/// level up.
pub proof fn spikes_do_not_raise_the_signal(tally: Tally, level: int)
    requires
        0 < tally.total() <= LARGEST_WINDOW,
        tally.total() < usize::MAX,
        0 <= level < histogram::MAG_LEVELS - 1,
        1000 * (tally.total() - histogram::below(tally.counts, level + 1)) < tally.total(),
    ensures
        tally.high() <= level,
{
    lemma_shares();
    histogram::below_grows(tally.counts, level + 1, histogram::MAG_LEVELS as int);
    lemma_minority(tally, float::decode(histogram::NEARLY_ALL_BITS), 999, 1000, level);
}

/// The signal level is never below the noise floor.
pub proof fn noise_below_signal(tally: Tally)
    requires
        tally.total() <= LARGEST_WINDOW,
        tally.total() < usize::MAX,
    ensures
        0 <= tally.median() <= tally.high() < histogram::MAG_LEVELS,
{
    if tally.total() > 0 {
        lemma_shares();
        let half = float::decode(histogram::HALF_BITS);
        let nearly = float::decode(histogram::NEARLY_ALL_BITS);
        lemma_target(tally, half, 1, 2);
        lemma_target(tally, nearly, 999, 1000);
        lemma_not_that_many(tally, half, 1, 2);
        assert(tally.target(half) <= tally.target(nearly));
        percentile_is_least(tally.counts, tally.target(half), 0);
        percentile_is_least(tally.counts, tally.target(nearly), 0);
        lemma_quantile_order(tally.counts, tally.target(half), tally.target(nearly));
    }
}

/// A fraction of the way up does not overshoot: the level sliced between two
/// levels lies between them.
pub proof fn sliced_between(tally: Tally, fraction: Binary)
    requires
        tally.total() <= LARGEST_WINDOW,
        tally.total() < usize::MAX,
        tame(fraction, 700),
        units(fraction) <= one(),
    ensures
        tally.median() <= tally.sliced(fraction) <= tally.high(),
{
    noise_below_signal(tally);
    let base = tally.median();
    let span = histogram::gap(base, tally.high());
    let product = float::product(float::from_nat(span as nat), fraction);
    lemma_pow2_pos(1074);
    if span == 0 {
        vstd::arithmetic::div_mod::lemma_basic_div(one() as int, (2 * one()) as int);
        assert(float::round_magnitude(0, -1074) == 0);
    } else {
        error::from_nat_exact(span as nat);
        error::product_near(float::from_nat(span as nat), fraction, 53, 700);
        let p = units(product) as int;
        let f = units(fraction) as int;
        let o = one() as int;
        let so = span * o;
        assert(0x20_0000_0000_0000 * p <= 0x20_0000_0000_0001 * so) by (nonlinear_arith)
            requires
                0x20_0000_0000_0000 * (p * o - so * f) <= 1 * (so * f),
                f <= o,
                o > 0,
                so >= 0,
        {
            assert(so * f <= so * o);
            assert((0x20_0000_0000_0000 * p) * o <= (0x20_0000_0000_0001 * so) * o);
        }
        assert(so <= 0x1_0000 * o) by (nonlinear_arith)
            requires
                so == span * o,
                span <= 0x1_0000,
                o > 0,
        ;
        match product {
            Binary::Finite { mantissa, exponent, .. } => {
                error::round_in_units(mantissa, exponent);
                let whole = float::round_magnitude(mantissa, exponent);
                assert(whole <= span) by (nonlinear_arith)
                    requires
                        (2 * whole - 1) * o <= 2 * p,
                        0x20_0000_0000_0000 * p <= 0x20_0000_0000_0001 * so,
                        so == span * o,
                        so <= 0x1_0000 * o,
                        o > 0,
                {
                    assert(2 * p < 2 * so + o);
                    assert((2 * whole - 1) * o < (2 * span + 1) * o);
                }
            },
            _ => {},
        }
    }
}

} // verus!
