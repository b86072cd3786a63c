//! The levels of a capture, by counting its samples.

use vstd::arithmetic::power2::*;
use vstd::prelude::*;

use crate::float;
use crate::float::error;
use crate::float::error::{near, one, tame, units};
use crate::float::Binary;
use crate::ook::envelope;
use crate::ook::histogram;
use crate::ook::histogram::Tally;
use crate::ook::precision;
use crate::ook::statistics;

verus! {

/// How many of some magnitudes are no higher than a level.
pub open spec fn at_most(mags: Seq<u16>, level: int) -> nat
    decreases mags.len(),
{
    if mags.len() == 0 {
        0
    } else {
        at_most(mags.drop_last(), level) + if mags.last() <= level {
            1nat
        } else {
            0
        }
    }
}

/// Whether a level is the least one with a share of `num` in `den` of some
/// magnitudes at or below it.
pub open spec fn is_quantile(mags: Seq<u16>, num: nat, den: nat, level: int) -> bool {
    &&& 0 <= level
    &&& den * at_most(mags, level) >= num * mags.len()
    &&& level > 0 ==> den * at_most(mags, level - 1) < num * mags.len()
}

/// Whether some magnitudes are those of samples.
pub open spec fn sampled(mags: Seq<u16>) -> bool {
    forall|k: int| 0 <= k < mags.len() ==> #[trigger] mags[k] <= 256
}

pub(crate) proof fn lemma_at_most_grows(mags: Seq<u16>, low: int, high: int)
    requires
        low <= high,
    ensures
        at_most(mags, low) <= at_most(mags, high),
    decreases mags.len(),
{
    if mags.len() > 0 {
        lemma_at_most_grows(mags.drop_last(), low, high);
    }
}

/// A share has one quantile only.
pub proof fn quantiles_are_unique(mags: Seq<u16>, num: nat, den: nat, a: int, b: int)
    requires
        is_quantile(mags, num, den, a),
        is_quantile(mags, num, den, b),
    ensures
        a == b,
{
    if a < b {
        lemma_at_most_grows(mags, a, b - 1);
        assert(den * at_most(mags, a) <= den * at_most(mags, b - 1)) by (nonlinear_arith)
            requires
                at_most(mags, a) <= at_most(mags, b - 1),
        ;
    } else if b < a {
        lemma_at_most_grows(mags, b, a - 1);
        assert(den * at_most(mags, b) <= den * at_most(mags, a - 1)) by (nonlinear_arith)
            requires
                at_most(mags, b) <= at_most(mags, a - 1),
        ;
    }
}

proof fn lemma_level_counts(mags: Seq<u16>, end: int)
    requires
        0 <= end <= 257,
    ensures
        histogram::below(histogram::tally(mags).counts, end) == at_most(mags, end - 1),
    decreases mags.len(), end,
{
    let counts = histogram::tally(mags).counts;
    if mags.len() == 0 {
        if end > 0 {
            lemma_level_counts(mags, end - 1);
        }
    } else {
        let rest = mags.drop_last();
        lemma_level_counts(rest, end);
        histogram::tally_push(rest, mags.last());
        assert(rest.push(mags.last()) =~= mags);
        histogram::lemma_below_update(
            histogram::tally(rest).counts,
            histogram::level(mags.last()),
            end,
        );
    }
}

/// A histogram counts every magnitude once.
proof fn lemma_everything_counts(mags: Seq<u16>)
    ensures
        histogram::tally(mags).total() == mags.len(),
    decreases mags.len(),
{
    if mags.len() == 0 {
        histogram::tally_empty();
        assert(mags =~= Seq::<u16>::empty());
        histogram::lemma_below_zero(258);
    } else {
        let rest = mags.drop_last();
        lemma_everything_counts(rest);
        histogram::tally_push(rest, mags.last());
        assert(rest.push(mags.last()) =~= mags);
        histogram::lemma_below_update(
            histogram::tally(rest).counts,
            histogram::level(mags.last()),
            258,
        );
    }
}

proof fn lemma_all_at_most(mags: Seq<u16>, level: int)
    requires
        forall|k: int| 0 <= k < mags.len() ==> #[trigger] mags[k] <= level,
    ensures
        at_most(mags, level) == mags.len(),
    decreases mags.len(),
{
    if mags.len() > 0 {
        lemma_all_at_most(mags.drop_last(), level);
        assert(mags[mags.len() - 1] <= level);
    }
}

/// A share that is not above its ratio asks for the next whole number.
proof fn lemma_target_exact(tally: Tally, share: Binary, num: nat, den: nat)
    requires
        0 < tally.total() <= statistics::LARGEST_WINDOW,
        tally.total() < usize::MAX,
        tame(share, 212),
        near(share, num, den, 1),
        units(share) * den <= num * one(),
        0 < num < den <= 1000,
    ensures
        (tally.target(share) - 1) * den < num * tally.total(),
        num * tally.total() <= tally.target(share) * den,
{
    let total = tally.total();
    let c = tally.target(share);
    let exact = total * num;
    statistics::lemma_target(tally, share, num, den);
    statistics::lemma_not_that_many(tally, share, num, den);
    assert(num * total == total * num) by (nonlinear_arith);
    assert(exact <= 0x100_0000_0000 * 1000) by (nonlinear_arith)
        requires
            exact == total * num,
            total <= 0x100_0000_0000,
            num <= 1000,
    ;
    let o = one() as int;
    lemma_pow2_pos(1074);
    if (c - 1) * den >= exact {
        assert((c - 1) * den == exact);
        assert(exact >= 1) by (nonlinear_arith)
            requires
                exact == total * num,
                total >= 1,
                num >= 1,
        ;
        assert(c - 1 > 0) by (nonlinear_arith)
            requires
                (c - 1) * den >= 1,
                den > 0,
        ;
        let whole = (c - 1) as nat;
        assert(whole <= exact) by (nonlinear_arith)
            requires
                whole * den == exact,
                den >= 1,
        ;
        error::from_nat_exact(total);
        let value = float::from_nat(total);
        let u = units(share);
        assert(units(value) * u <= (whole * one()) * one()) by (nonlinear_arith)
            requires
                units(value) == total * one(),
                u * den <= num * one(),
                whole * den == total * num,
                den > 0,
        {
            let w = one();
            assert((total * w) * (u * den) <= (total * w) * (num * w));
            assert((total * w) * (num * w) == ((total * num) * w) * w);
            assert(((whole * den) * w) * w == ((whole * w) * w) * den);
            assert((total * w) * (u * den) == ((total * w) * u) * den);
            assert(((total * w) * u) * den <= ((whole * w) * w) * den);
        }
        error::product_stays_below(value, share, whole);
        let product = float::product(value, share);
        precision::multiple_near(total, 0, share, num, den);
        match product {
            Binary::Finite { mantissa, exponent, .. } => {
                error::ceil_in_units(mantissa, exponent);
                assert(c == float::ceil_magnitude(mantissa, exponent));
                assert(false);
            },
            _ => {},
        }
    }
}

proof fn lemma_shares_not_above()
    ensures
        units(float::decode(histogram::HALF_BITS)) * 2 <= 1 * one(),
        units(float::decode(histogram::THREE_QUARTERS_BITS)) * 4 <= 3 * one(),
        units(float::decode(histogram::NEARLY_ALL_BITS)) * 1000 <= 999 * one(),
{
    lemma2_to64();
    lemma2_to64_rest();
    lemma_pow2_adds(1021, 53);
    let w = pow2(1021) as int;
    assert(one() == w * 0x20_0000_0000_0000);
    lemma_pow2_pos(1021);
    assert(units(float::decode(histogram::HALF_BITS)) == 0x10_0000_0000_0000 * w);
    assert(units(float::decode(histogram::THREE_QUARTERS_BITS)) == 0x18_0000_0000_0000 * w);
    assert(units(float::decode(histogram::NEARLY_ALL_BITS)) == 0x1F_F7CE_D916_872B * w);
}

proof fn lemma_percentile_exact(mags: Seq<u16>, share: Binary, num: nat, den: nat)
    requires
        0 < mags.len() <= statistics::LARGEST_WINDOW,
        mags.len() < usize::MAX,
        sampled(mags),
        tame(share, 212),
        near(share, num, den, 1),
        units(share) * den <= num * one(),
        0 < num < den <= 1000,
    ensures
        is_quantile(mags, num, den, histogram::tally(mags).percentile(share)),
        histogram::tally(mags).percentile(share) <= 256,
{
    let tally = histogram::tally(mags);
    let total = mags.len();
    lemma_everything_counts(mags);
    lemma_target_exact(tally, share, num, den);
    let c = tally.target(share);
    statistics::percentile_is_least(tally.counts, c, 0);
    let found = tally.percentile(share);
    lemma_all_at_most(mags, 256);
    lemma_level_counts(mags, 257);
    assert(c <= total) by (nonlinear_arith)
        requires
            (c - 1) * den < num * total,
            num < den,
            total >= 0,
    {
        if c - 1 >= total {
            assert((c - 1) * den >= total * den);
            assert(total * den >= total * num);
        }
    }
    if found >= 257 {
        assert(histogram::below(tally.counts, 256int + 1) < c);
    }
    lemma_level_counts(mags, found + 1);
    assert(den * at_most(mags, found) >= num * total) by (nonlinear_arith)
        requires
            at_most(mags, found) >= c,
            num * total <= c * den,
            den > 0,
    ;
    if found > 0 {
        assert(histogram::below(tally.counts, (found - 1) + 1) < c);
        lemma_level_counts(mags, found);
        assert(den * at_most(mags, found - 1) < num * total) by (nonlinear_arith)
            requires
                at_most(mags, found - 1) <= c - 1,
                (c - 1) * den < num * total,
                den > 0,
        ;
    }
}

/// The levels of a capture are what counting its samples gives: half of them
/// lie at or below the noise floor, three quarters at or below the quartile,
/// and 999 in a thousand at or below the signal level, and of no lower level
/// does that hold.
pub proof fn levels_are_counted(mags: Seq<u16>)
    requires
        0 < mags.len() <= statistics::LARGEST_WINDOW,
        mags.len() < usize::MAX,
        sampled(mags),
    ensures
        ({
            let tally = histogram::tally(mags);
            let quartile = tally.percentile(float::decode(histogram::THREE_QUARTERS_BITS));
            &&& is_quantile(mags, 1, 2, tally.median())
            &&& is_quantile(mags, 3, 4, quartile)
            &&& is_quantile(mags, 999, 1000, tally.high())
            &&& tally.median() <= quartile <= tally.high() <= 256
        }),
{
    statistics::lemma_shares();
    lemma_shares_not_above();
    let half = float::decode(histogram::HALF_BITS);
    let quarters = float::decode(histogram::THREE_QUARTERS_BITS);
    let nearly = float::decode(histogram::NEARLY_ALL_BITS);
    lemma_percentile_exact(mags, half, 1, 2);
    lemma_percentile_exact(mags, quarters, 3, 4);
    lemma_percentile_exact(mags, nearly, 999, 1000);
    let tally = histogram::tally(mags);
    let quartile = tally.percentile(quarters);
    if tally.median() > quartile {
        lemma_at_most_grows(mags, quartile, tally.median() - 1);
    }
    if quartile > tally.high() {
        lemma_at_most_grows(mags, tally.high(), quartile - 1);
    }
}

/// The magnitudes of samples are those of samples.
pub proof fn magnitudes_are_sampled(iq: Seq<u8>)
    ensures
        sampled(envelope::magnitudes(iq)),
{
}

} // verus!
