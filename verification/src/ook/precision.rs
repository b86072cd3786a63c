//! How exactly microseconds survive being turned into samples and back.

use vstd::arithmetic::power2::*;
use vstd::prelude::*;

use crate::float;
use crate::float::error;
use crate::float::error::{near, one, tame, units};
use crate::float::Binary;
use crate::ook::clock;
use crate::ook::runs;

verus! {

/// The longest timing that is sure to survive, in microseconds: some four
/// years.
pub const LONGEST_US: u64 = 0x8000_0000_0000;

/// The lowest rate at which two samples fit into each microsecond.
pub const TWO_SAMPLES_PER_US: u32 = 2_000_000;

/// A quotient of two exact integers.
pub proof fn ratio_near(num: nat, den: nat)
    requires
        0 < num < 0x20_0000_0000_0000,
        0 < den < 0x20_0000_0000_0000,
    ensures
        tame(float::quotient(float::from_nat(num), float::from_nat(den)), 212),
        near(float::quotient(float::from_nat(num), float::from_nat(den)), num, den, 1),
{
    let ratio = float::quotient(float::from_nat(num), float::from_nat(den));
    error::from_nat_exact(num);
    error::from_nat_exact(den);
    error::quotient_near(float::from_nat(num), float::from_nat(den), 53, 53);
    lemma_pow2_pos(1074);
    let u = units(ratio);
    assert(u * (den * one()) == (u * den) * one()) by (nonlinear_arith);
    error::within_divided((u * den) as int, (num * one()) as int, 1, one());
}

/// An exact factor times a double that is near to a ratio.
pub proof fn multiple_near(count: nat, err: nat, value: Binary, num: nat, den: nat)
    requires
        0 < count <= 0x1_0000_0000_0000_0000,
        err == 1 || (err == 0 && count < 0x20_0000_0000_0000),
        tame(value, 212),
        near(value, num, den, 1),
    ensures
        tame(float::product(float::from_nat(count), value), 371),
        near(float::product(float::from_nat(count), value), count * num, den, err + 4),
{
    let product = float::product(float::from_nat(count), value);
    error::from_nat_near(count);
    if err == 0 {
        error::from_nat_exact(count);
    }
    error::product_near(float::from_nat(count), value, 53, 212);
    lemma_pow2_pos(1074);
    let p = units(product);
    let c = units(float::from_nat(count));
    let v = units(value);
    assert(c * 1 == c);
    error::within_scaled(c as int, (count * one()) as int, err, v);
    assert((count * one()) * v >= 0) by (nonlinear_arith);
    error::within_chained(
        (p * one()) as int,
        (c * v) as int,
        ((count * one()) * v) as int,
        1,
        err,
    );
    assert((count * one()) * v == (count * v) * one()) by (nonlinear_arith);
    error::within_divided(p as int, (count * v) as int, err + 2, one());
    error::within_scaled(p as int, (count * v) as int, err + 2, den);
    error::within_scaled((v * den) as int, (num * one()) as int, 1, count);
    assert((count * v) * den == (v * den) * count) by (nonlinear_arith);
    assert((num * one()) * count == (count * num) * one()) by (nonlinear_arith);
    assert(0 <= (count * num) * one()) by (nonlinear_arith);
    error::within_chained(
        (p * den) as int,
        ((count * v) * den) as int,
        ((count * num) * one()) as int,
        err + 2,
        1,
    );
}

/// A timing, rendered as samples and measured again, is what it was.
pub proof fn timings_survive(timing: int, sample_rate: u32)
    requires
        sample_rate >= TWO_SAMPLES_PER_US,
        0 < clock::magnitude(timing) <= LONGEST_US,
        clock::sample_count(timing, sample_rate) < usize::MAX,
    ensures
        clock::run_us(clock::sample_count(timing, sample_rate) as nat, sample_rate)
            == clock::magnitude(timing),
        clock::sample_count(timing, sample_rate) > 0,
{
    let t = clock::magnitude(timing);
    let rate = sample_rate as nat;
    let per_us = clock::samples_per_us(sample_rate);
    let exact = float::product(float::from_nat(t), per_us);
    ratio_near(rate, 1_000_000);
    multiple_near(t, 0, per_us, rate, 1_000_000);
    lemma_pow2_pos(1074);
    let k = clock::sample_count(timing, sample_rate) as nat;
    match exact {
        Binary::Finite { mantissa, exponent, .. } => {
            error::round_in_units(mantissa, exponent);
            assert(k == float::round_magnitude(mantissa, exponent));
        },
        _ => {},
    }
    let p = units(exact) as int;
    let o = one() as int;
    let ko = (k * one()) as int;
    let to = (t * one()) as int;
    let xo = ((t * rate) * one()) as int;
    let ro = (rate * one()) as int;
    assert((2 * k - 1) * one() == 2 * ko - o && (2 * k + 1) * one() == 2 * ko + o)
        by (nonlinear_arith)
        requires
            ko == k * one(),
            o == one(),
    ;
    assert(xo <= 0x8000_0000_0000 * ro && xo >= ro) by (nonlinear_arith)
        requires
            xo == (t * rate) * one(),
            ro == rate * one(),
            1 <= t <= 0x8000_0000_0000,
    {
        assert((t * rate) * one() == t * (rate * one()));
    }
    assert(ro >= 2_000_000 * o) by (nonlinear_arith)
        requires
            ro == rate * one(),
            o == one(),
            rate >= 2_000_000,
    ;
    assert(units(exact) * 1_000_000 == 1_000_000 * p);
    assert(k > 0) by (nonlinear_arith)
        requires
            0x20_0000_0000_0000 * (xo - 1_000_000 * p) <= 4 * xo,
            2 * p < 2 * ko + o,
            ko == k * one(),
            xo >= ro,
            ro >= 2_000_000 * o,
            o > 0,
            k >= 0,
    {
        if k == 0 {
            assert(ko == 0);
        }
    }

    let per_sample = clock::us_per_sample(sample_rate);
    let measured = float::product(float::from_nat(k), per_sample);
    ratio_near(1_000_000, rate);
    multiple_near(k, 1, per_sample, 1_000_000, rate);
    let r = clock::run_us(k, sample_rate);
    let q = units(measured) as int;
    let qr = (units(measured) * rate) as int;
    assert((k * 1_000_000) * one() == 1_000_000 * ko) by (nonlinear_arith)
        requires
            ko == k * one(),
    ;
    assert(2 * qr < 2 * xo + ro);
    assert(2 * qr > 2 * xo - ro);
    assert(2 * q < 2 * to + o && 2 * q > 2 * to - o) by (nonlinear_arith)
        requires
            2 * qr < 2 * xo + ro,
            2 * qr > 2 * xo - ro,
            qr == q * rate,
            xo == (t * rate) * one(),
            ro == rate * one(),
            to == t * one(),
            o == one(),
            rate > 0,
    {
        assert(xo == to * rate);
        assert(2 * (q * rate) == (2 * q) * rate);
        assert(2 * (to * rate) + rate * o == (2 * to + o) * rate);
        assert(2 * (to * rate) - rate * o == (2 * to - o) * rate);
    }
    match measured {
        Binary::Finite { mantissa, exponent, .. } => {
            error::round_in_units(mantissa, exponent);
            let whole = float::round_magnitude(mantissa, exponent);
            assert(whole == t) by (nonlinear_arith)
                requires
                    (2 * whole - 1) * one() <= 2 * q,
                    2 * q < (2 * whole + 1) * one(),
                    2 * q < 2 * to + o,
                    2 * q > 2 * to - o,
                    to == t * one(),
                    o == one(),
                    o > 0,
            {
                assert((2 * whole - 1) * o < (2 * t + 1) * o);
                assert((2 * t - 1) * o < (2 * whole + 1) * o);
            }
        },
        _ => {},
    }
}

/// What a timing is rendered as, in units of the smallest double.
pub(crate) proof fn lemma_count(timing: int, sample_rate: u32)
    requires
        sample_rate > 0,
        0 < clock::magnitude(timing) <= LONGEST_US,
        clock::sample_count(timing, sample_rate) < usize::MAX,
    ensures
        ({
            let ko = clock::sample_count(timing, sample_rate) * one();
            let xo = (clock::magnitude(timing) * sample_rate as nat) * one();
            &&& 0x20_0000_0000_0000 * (1_000_000 * (2 * ko + one())) > 0x3F_FFFF_FFFF_FFF8 * xo
            &&& 0x20_0000_0000_0000 * (1_000_000 * (2 * ko - one())) <= 0x40_0000_0000_0008 * xo
        }),
{
    let t = clock::magnitude(timing);
    let rate = sample_rate as nat;
    let per_us = clock::samples_per_us(sample_rate);
    let exact = float::product(float::from_nat(t), per_us);
    ratio_near(rate, 1_000_000);
    multiple_near(t, 0, per_us, rate, 1_000_000);
    lemma_pow2_pos(1074);
    let k = clock::sample_count(timing, sample_rate) as nat;
    match exact {
        Binary::Finite { mantissa, exponent, .. } => {
            error::round_in_units(mantissa, exponent);
            assert(k == float::round_magnitude(mantissa, exponent));
        },
        _ => {},
    }
    let ko = (k * one()) as int;
    assert((2 * k - 1) * one() == 2 * ko - one() && (2 * k + 1) * one() == 2 * ko + one())
        by (nonlinear_arith)
        requires
            ko == k * one(),
    ;
    let p = units(exact) as int;
    let xo = ((t * rate) * one()) as int;
    assert(0x20_0000_0000_0000 * (p * 1_000_000 - xo) <= 4 * xo);
    assert(0x20_0000_0000_0000 * (xo - p * 1_000_000) <= 4 * xo);
    assert(2 * p < 2 * ko + one());
    assert(2 * p >= 2 * ko - one());
}

/// The double that a duration in samples is rounded from.
spec fn samples_in(us: nat, sample_rate: u32) -> Binary {
    float::quotient(float::from_nat(us), clock::us_per_sample(sample_rate))
}

/// The number of samples nearest to a duration, in units of the smallest
/// double.
pub(crate) proof fn lemma_floor(us: nat, sample_rate: u32) -> (whole: nat)
    requires
        sample_rate > 0,
        0 < us <= LONGEST_US,
    ensures
        forall|limit: int|
            limit >= 1 ==> #[trigger] clock::at_least_one(
                float::from_nat(us),
                sample_rate,
                limit,
            ) == if whole < 1 {
                1
            } else if whole > limit {
                limit
            } else {
                whole as int
            },
        ({
            let wo = whole * one();
            let uro = (us * sample_rate as nat) * one();
            &&& 0x1F_FFFF_FFFF_FFFF * (1_000_000 * (2 * wo - one())) <= 0x40_0000_0000_0002 * uro
            &&& 0x20_0000_0000_0001 * (1_000_000 * (2 * wo + one())) > 0x3F_FFFF_FFFF_FFFE * uro
        }),
{
    let rate = sample_rate as nat;
    let per_sample = clock::us_per_sample(sample_rate);
    let floor = samples_in(us, sample_rate);
    lemma_pow2_pos(1074);
    ratio_near(1_000_000, rate);
    error::from_nat_exact(us);
    error::quotient_near(float::from_nat(us), per_sample, 53, 212);
    let g = units(floor) as int;
    let u = units(per_sample) as int;
    let o = one() as int;
    let uro = ((us * rate) * one()) as int;
    assert(0x1F_FFFF_FFFF_FFFF * 1_000_000 * g <= 0x20_0000_0000_0001 * uro) by (nonlinear_arith)
        requires
            0x20_0000_0000_0000 * (g * u - (us * o) * o) <= 1 * ((us * o) * o),
            0x20_0000_0000_0000 * (1_000_000 * o - u * rate) <= 1 * (1_000_000 * o),
            uro == (us * rate) * o,
            o > 0,
            g >= 0,
            rate >= 0,
    {
        assert(0x20_0000_0000_0000 * (g * u) * rate <= 0x20_0000_0000_0001 * ((us * o) * o) * rate);
        assert(0x20_0000_0000_0001 * ((us * o) * o) * rate == 0x20_0000_0000_0001 * uro * o);
        assert(0x20_0000_0000_0000 * (u * rate) >= 0x1F_FFFF_FFFF_FFFF * 1_000_000 * o);
        assert(0x20_0000_0000_0000 * (g * u) * rate == g * (0x20_0000_0000_0000 * (u * rate)));
        assert(g * (0x20_0000_0000_0000 * (u * rate)) >= g * (0x1F_FFFF_FFFF_FFFF * 1_000_000 * o));
        assert(g * (0x1F_FFFF_FFFF_FFFF * 1_000_000 * o) == (0x1F_FFFF_FFFF_FFFF * 1_000_000 * g)
            * o);
        assert((0x1F_FFFF_FFFF_FFFF * 1_000_000 * g) * o <= (0x20_0000_0000_0001 * uro) * o);
    }
    assert(0x20_0000_0000_0001 * 1_000_000 * g >= 0x1F_FFFF_FFFF_FFFF * uro) by (nonlinear_arith)
        requires
            0x20_0000_0000_0000 * ((us * o) * o - g * u) <= 1 * ((us * o) * o),
            0x20_0000_0000_0000 * (u * rate - 1_000_000 * o) <= 1 * (1_000_000 * o),
            uro == (us * rate) * o,
            o > 0,
            g >= 0,
            rate >= 0,
    {
        assert(0x20_0000_0000_0000 * (g * u) * rate >= 0x1F_FFFF_FFFF_FFFF * ((us * o) * o) * rate);
        assert(0x1F_FFFF_FFFF_FFFF * ((us * o) * o) * rate == 0x1F_FFFF_FFFF_FFFF * uro * o);
        assert(0x20_0000_0000_0000 * (u * rate) <= 0x20_0000_0000_0001 * 1_000_000 * o);
        assert(0x20_0000_0000_0000 * (g * u) * rate == g * (0x20_0000_0000_0000 * (u * rate)));
        assert(g * (0x20_0000_0000_0000 * (u * rate)) <= g * (0x20_0000_0000_0001 * 1_000_000 * o));
        assert(g * (0x20_0000_0000_0001 * 1_000_000 * o) == (0x20_0000_0000_0001 * 1_000_000 * g)
            * o);
        assert((0x20_0000_0000_0001 * 1_000_000 * g) * o >= (0x1F_FFFF_FFFF_FFFF * uro) * o);
    }
    match floor {
        Binary::Finite { mantissa, exponent, .. } => {
            error::round_in_units(mantissa, exponent);
            let whole = float::round_magnitude(mantissa, exponent);
            let wo = (whole * one()) as int;
            assert((2 * whole - 1) * one() == 2 * wo - o && (2 * whole + 1) * one() == 2 * wo + o)
                by (nonlinear_arith)
                requires
                    wo == whole * one(),
                    o == one(),
            ;
            assert(2 * wo - o <= 2 * g && 2 * g < 2 * wo + o);
            assert(0x1F_FFFF_FFFF_FFFF * (1_000_000 * (2 * wo - o)) <= 0x40_0000_0000_0002 * uro
                && 0x20_0000_0000_0001 * (1_000_000 * (2 * wo + o)) > 0x3F_FFFF_FFFF_FFFE * uro)
                by (nonlinear_arith)
                requires
                    0x1F_FFFF_FFFF_FFFF * 1_000_000 * g <= 0x20_0000_0000_0001 * uro,
                    0x20_0000_0000_0001 * 1_000_000 * g >= 0x1F_FFFF_FFFF_FFFF * uro,
                    2 * wo - o <= 2 * g,
                    2 * g < 2 * wo + o,
            ;
            whole
        },
        _ => 0,
    }
}

/// A timing longer than the glitch floor is no glitch.
pub proof fn longer_than_the_floor(timing: int, min_us: u32, sample_rate: u32)
    requires
        sample_rate >= TWO_SAMPLES_PER_US,
        min_us < clock::magnitude(timing) <= LONGEST_US,
        clock::sample_count(timing, sample_rate) < usize::MAX,
    ensures
        clock::sample_count(timing, sample_rate) >= runs::shortest(min_us, sample_rate),
{
    let t = clock::magnitude(timing);
    let m = min_us as nat;
    let rate = sample_rate as nat;
    let k = clock::sample_count(timing, sample_rate);
    timings_survive(timing, sample_rate);
    lemma_count(timing, sample_rate);
    lemma_pow2_pos(1074);
    if m > 0 {
        let whole = lemma_floor(m, sample_rate);
        let o = one() as int;
        let mro = ((m * rate) * one()) as int;
        let ro = (rate * one()) as int;
        let ko = k * o;
        let wo = whole * o;
        let xo = (t * rate) * o;
        lemma_shares(m, t, rate, o);
        if whole > k {
            assert(wo >= ko + o) by (nonlinear_arith)
                requires
                    wo == whole * o,
                    ko == k * o,
                    whole >= k + 1,
                    o > 0,
            ;
            assert(0x20_0000_0000_0000 * (1_000_000 * (2 * ko + o)) > 0x3F_FFFF_FFFF_FFF8 * xo);
            assert(0x1F_FFFF_FFFF_FFFF * (1_000_000 * (2 * wo - o)) <= 0x40_0000_0000_0002 * mro);
            assert(false);
        }
    } else {
        ratio_near(1_000_000, rate);
        vstd::arithmetic::div_mod::lemma_basic_div(one() as int, (2 * one()) as int);
        assert(float::round_magnitude(0, -1074) == 0);
    }
}

/// A microsecond more weighs as much as its samples.
proof fn lemma_shares(shorter: nat, longer: nat, rate: nat, o: int)
    requires
        shorter < longer,
        shorter <= 0x1_0000_0000,
        rate > 0,
        o > 0,
    ensures
        (longer * rate) * o >= (shorter * rate) * o + rate * o,
        (shorter * rate) * o <= 0x1_0000_0000 * (rate * o),
        rate * o > 0,
{
    assert((longer * rate) * o == longer * (rate * o)) by (nonlinear_arith);
    assert((shorter * rate) * o == shorter * (rate * o)) by (nonlinear_arith);
    assert(rate * o > 0) by (nonlinear_arith)
        requires
            rate > 0,
            o > 0,
    ;
    let ro = rate * o;
    assert(longer * ro >= (shorter + 1) * ro) by (nonlinear_arith)
        requires
            longer >= shorter + 1,
            ro > 0,
    ;
    assert((shorter + 1) * ro == shorter * ro + ro) by (nonlinear_arith);
    assert(shorter * ro <= 0x1_0000_0000 * ro) by (nonlinear_arith)
        requires
            shorter <= 0x1_0000_0000,
            ro > 0,
    ;
}

/// A floor of more microseconds is no fewer samples.
pub proof fn floors_are_ordered(min_us: u32, us: nat, sample_rate: u32, limit: int)
    requires
        sample_rate >= TWO_SAMPLES_PER_US,
        min_us <= us <= LONGEST_US,
        limit >= 1,
    ensures
        clock::at_least_one(float::from_nat(min_us as nat), sample_rate, limit)
            <= clock::at_least_one(float::from_nat(us), sample_rate, limit),
{
    let m = min_us as nat;
    let rate = sample_rate as nat;
    lemma_pow2_pos(1074);
    if m == 0 {
        ratio_near(1_000_000, rate);
        vstd::arithmetic::div_mod::lemma_basic_div(one() as int, (2 * one()) as int);
        assert(float::round_magnitude(0, -1074) == 0);
        assert(clock::at_least_one(float::from_nat(m), sample_rate, limit) == 1);
    } else if m < us {
        let low = lemma_floor(m, sample_rate);
        let high = lemma_floor(us, sample_rate);
        let o = one() as int;
        lemma_shares(m, us, rate, o);
        if low > high {
            let lo = low * o;
            let ho = high * o;
            assert(lo >= ho + o) by (nonlinear_arith)
                requires
                    lo == low * o,
                    ho == high * o,
                    low >= high + 1,
                    o > 0,
            ;
            assert(0x20_0000_0000_0001 * (1_000_000 * (2 * ho + o)) > 0x3F_FFFF_FFFF_FFFE * ((us
                * rate) * o));
            assert(0x1F_FFFF_FFFF_FFFF * (1_000_000 * (2 * lo - o)) <= 0x40_0000_0000_0002 * ((m
                * rate) * o));
            assert(false);
        }
    }
}

/// As many samples as a duration calls for last that long.
pub proof fn samples_last(us: nat, samples: nat, sample_rate: u32)
    requires
        sample_rate >= TWO_SAMPLES_PER_US,
        0 < us <= LONGEST_US,
        clock::at_least_one(float::from_nat(us), sample_rate, u64::MAX as int) <= samples
            <= u64::MAX,
    ensures
        clock::run_us(samples, sample_rate) >= us,
{
    let rate = sample_rate as nat;
    let n = samples;
    lemma_pow2_pos(1074);
    let whole = lemma_floor(us, sample_rate);
    let o = one() as int;
    let wo = whole * o;
    let no = n * o;
    let uro = (us * rate) * o;
    let ro = rate * o;
    assert(uro <= 0x8000_0000_0000 * ro && ro >= 2_000_000 * o) by (nonlinear_arith)
        requires
            uro == (us * rate) * o,
            ro == rate * o,
            us <= 0x8000_0000_0000,
            rate >= 2_000_000,
            o > 0,
    {
        assert((us * rate) * o == us * (rate * o));
        assert(rate * o > 0);
    }
    if whole > u64::MAX {
        assert(ro <= 0x1_0000_0000 * o && wo >= 0xFFFF_FFFF_FFFF_FFFF * o) by (nonlinear_arith)
            requires
                ro == rate * o,
                rate <= 0x1_0000_0000,
                wo == whole * o,
                whole >= 0xFFFF_FFFF_FFFF_FFFF,
                o > 0,
        ;
        assert(false);
    }
    assert(no >= wo) by (nonlinear_arith)
        requires
            no == n * o,
            wo == whole * o,
            n >= whole,
            o > 0,
    ;
    let per_sample = clock::us_per_sample(sample_rate);
    let measured = float::product(float::from_nat(n), per_sample);
    ratio_near(1_000_000, rate);
    multiple_near(n, 1, per_sample, 1_000_000, rate);
    let q = units(measured) as int;
    let qr = (units(measured) * rate) as int;
    let uo = us * o;
    assert((n * 1_000_000) * one() == 1_000_000 * no) by (nonlinear_arith)
        requires
            no == n * one(),
    ;
    assert(2 * qr >= 2 * uro - ro);
    assert(2 * q >= 2 * uo - o) by (nonlinear_arith)
        requires
            2 * qr >= 2 * uro - ro,
            qr == q * rate,
            uro == (us * rate) * o,
            ro == rate * o,
            uo == us * o,
            rate > 0,
    {
        assert(uro == uo * rate);
        assert((2 * q) * rate >= (2 * uo - o) * rate);
    }
    match measured {
        Binary::Finite { mantissa, exponent, .. } => {
            error::round_in_units(mantissa, exponent);
            let whole = float::round_magnitude(mantissa, exponent);
            assert(whole >= us) by (nonlinear_arith)
                requires
                    2 * q < (2 * whole + 1) * o,
                    2 * q >= 2 * uo - o,
                    uo == us * o,
                    o > 0,
            {
                assert((2 * us - 1) * o < (2 * whole + 1) * o);
            }
        },
        _ => {},
    }
}

/// A timing is rendered as few samples as the highest rate allows.
pub proof fn count_is_moderate(timing: int, sample_rate: u32)
    requires
        0 < sample_rate <= 20_000_000,
        clock::magnitude(timing) <= LONGEST_US,
    ensures
        clock::sample_count(timing, sample_rate) <= 21 * clock::magnitude(timing),
{
    let t = clock::magnitude(timing);
    let rate = sample_rate as nat;
    let per_us = clock::samples_per_us(sample_rate);
    let exact = float::product(float::from_nat(t), per_us);
    ratio_near(rate, 1_000_000);
    lemma_pow2_pos(1074);
    if t == 0 {
        vstd::arithmetic::div_mod::lemma_basic_div(one() as int, (2 * one()) as int);
        assert(float::round_magnitude(0, -1074) == 0);
        match per_us {
            Binary::Finite { mantissa, .. } => {
                assert(0 * mantissa == 0) by (nonlinear_arith);
            },
            _ => {},
        }
    } else {
        multiple_near(t, 0, per_us, rate, 1_000_000);
        match exact {
            Binary::Finite { mantissa, exponent, .. } => {
                error::round_in_units(mantissa, exponent);
                let whole = float::round_magnitude(mantissa, exponent);
                let p = units(exact) as int;
                let o = one() as int;
                let xo = ((t * rate) * one()) as int;
                let to = (t * one()) as int;
                let wo = (whole * one()) as int;
                assert((2 * whole - 1) * one() == 2 * wo - o) by (nonlinear_arith)
                    requires
                        wo == whole * one(),
                        o == one(),
                ;
                assert(xo <= 20_000_000 * to && to >= o) by (nonlinear_arith)
                    requires
                        xo == (t * rate) * one(),
                        to == t * one(),
                        o == one(),
                        rate <= 20_000_000,
                        t >= 1,
                {
                    assert((t * rate) * one() == rate * (t * one()));
                }
                assert(0x20_0000_0000_0000 * (p * 1_000_000 - xo) <= 4 * xo);
                assert(wo <= 21 * to);
                assert(whole <= 21 * t) by (nonlinear_arith)
                    requires
                        wo == whole * one(),
                        to == t * one(),
                        wo <= 21 * to,
                        one() > 0,
                ;
            },
            _ => {},
        }
    }
}

/// A duration in seconds is a number of moderate size.
pub proof fn seconds_are_moderate(us: nat)
    requires
        us <= 0x8000_0000_0000_0000,
    ensures
        float::places_up_to(
            float::quotient(float::from_nat(us), float::from_nat(1_000_000)),
            65,
        ),
{
    let seconds = float::quotient(float::from_nat(us), float::from_nat(1_000_000));
    error::from_nat_exact(1_000_000);
    if us > 0 {
        error::from_nat_near(us);
        error::quotient_near(float::from_nat(us), float::from_nat(1_000_000), 53, 53);
        lemma_pow2_pos(1074);
        let q = units(seconds) as int;
        let u = units(float::from_nat(us)) as int;
        let o = one() as int;
        assert(u <= 0x8000_0000_0000_0401 * o) by (nonlinear_arith)
            requires
                0x20_0000_0000_0000 * (u * 1 - us * o) <= 1 * (us * o),
                us <= 0x8000_0000_0000_0000,
                o > 0,
        {
            assert(us * o <= 0x8000_0000_0000_0000 * o);
            assert(0x20_0000_0000_0000 * u <= 0x20_0000_0000_0001 * (0x8000_0000_0000_0000 * o));
            assert(0x20_0000_0000_0001 * 0x8000_0000_0000_0000 <= 0x20_0000_0000_0000
                * 0x8000_0000_0000_0401);
        }
        assert(q < 0x1_0000_0000_0000_0000 * o) by (nonlinear_arith)
            requires
                0x20_0000_0000_0000 * (q * (1_000_000 * o) - u * o) <= 1 * (u * o),
                u <= 0x8000_0000_0000_0401 * o,
                o > 0,
                q >= 0,
        {
            assert(0x20_0000_0000_0000 * (q * 1_000_000) * o <= (0x20_0000_0000_0001 * u) * o);
            assert(0x20_0000_0000_0000 * (q * 1_000_000) <= 0x20_0000_0000_0001 * u);
        }
        match seconds {
            Binary::Finite { mantissa, exponent, .. } => {
                if exponent > 65 {
                    let e = (exponent + 1074) as nat;
                    lemma2_to64();
                    lemma_pow2_adds(64, 1074);
                    lemma_pow2_strictly_increases(1138, e);
                    assert(mantissa * pow2(e) >= pow2(e)) by (nonlinear_arith)
                        requires
                            mantissa >= 1,
                    ;
                    assert(false);
                }
            },
            _ => {},
        }
    }
}

} // verus!
