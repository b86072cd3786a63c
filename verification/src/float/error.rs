//! How far a rounded result can be from the exact one.
//!
//! Every finite double is a whole multiple of the smallest one, so values are
//! compared as integers, in units of `2^-1074`.

use vstd::arithmetic::power2::*;
use vstd::prelude::*;

use crate::float;
use crate::float::Binary;

verus! {

/// One, in units of the smallest double.
pub open spec fn one() -> nat {
    pow2(1074)
}

/// A finite value in units of the smallest double, without its sign.
pub open spec fn units(value: Binary) -> nat {
    match value {
        Binary::Finite { mantissa, exponent, .. } => mantissa * pow2((exponent + 1074) as nat),
        _ => 0,
    }
}

/// A positive number far from both ends of the range of doubles.
pub open spec fn tame(value: Binary, span: nat) -> bool {
    match value {
        Binary::Finite { negative, mantissa, exponent } => {
            &&& !negative
            &&& 0 < mantissa < 0x20_0000_0000_0000
            &&& -span <= exponent <= span
        },
        _ => false,
    }
}

/// Whether two numbers differ by at most `err` units in `2^53` of the second.
pub open spec fn within(a: int, b: int, err: nat) -> bool {
    &&& 0x20_0000_0000_0000 * (a - b) <= err * b
    &&& 0x20_0000_0000_0000 * (b - a) <= err * b
}

/// Whether a double differs by at most `err` units in `2^53` from `num / den`.
pub open spec fn near(value: Binary, num: nat, den: nat, err: nat) -> bool {
    within((units(value) * den) as int, (num * one()) as int, err)
}

/// Scaling both sides keeps the relative error.
pub proof fn within_scaled(a: int, b: int, err: nat, factor: nat)
    requires
        within(a, b, err),
    ensures
        within(a * factor, b * factor, err),
{
    assert(0x20_0000_0000_0000 * (a * factor - b * factor) <= err * (b * factor))
        by (nonlinear_arith)
        requires
            0x20_0000_0000_0000 * (a - b) <= err * b,
            factor >= 0,
    ;
    assert(0x20_0000_0000_0000 * (b * factor - a * factor) <= err * (b * factor))
        by (nonlinear_arith)
        requires
            0x20_0000_0000_0000 * (b - a) <= err * b,
            factor >= 0,
    ;
}

/// Dividing both sides keeps the relative error.
pub proof fn within_divided(a: int, b: int, err: nat, factor: nat)
    requires
        within(a * factor, b * factor, err),
        factor > 0,
    ensures
        within(a, b, err),
{
    assert(0x20_0000_0000_0000 * (a - b) <= err * b) by (nonlinear_arith)
        requires
            0x20_0000_0000_0000 * (a * factor - b * factor) <= err * (b * factor),
            factor > 0,
    ;
    assert(0x20_0000_0000_0000 * (b - a) <= err * b) by (nonlinear_arith)
        requires
            0x20_0000_0000_0000 * (b * factor - a * factor) <= err * (b * factor),
            factor > 0,
    ;
}

/// Relative errors add up, with one more for their product.
pub proof fn within_chained(a: int, b: int, c: int, first: nat, second: nat)
    requires
        within(a, b, first),
        within(b, c, second),
        first * second <= 0x20_0000_0000_0000,
        c >= 0,
    ensures
        within(a, c, first + second + 1),
{
    assert(first * b <= first * c + c) by (nonlinear_arith)
        requires
            0x20_0000_0000_0000 * (b - c) <= second * c,
            first * second <= 0x20_0000_0000_0000,
            c >= 0,
            first >= 0,
    {
        assert(first * (0x20_0000_0000_0000 * (b - c)) <= first * (second * c));
        assert(first * (second * c) == (first * second) * c);
        assert((first * second) * c <= 0x20_0000_0000_0000 * c);
        assert(first * (0x20_0000_0000_0000 * (b - c)) == 0x20_0000_0000_0000 * (first * b - first
            * c));
    }
    assert((first + second + 1) * c == first * c + second * c + c) by (nonlinear_arith);
}

proof fn lemma_halved(num: nat, den: nat, exponent: int)
    requires
        den > 0,
        float::is_last_place(2 * num, den, exponent),
    ensures
        float::is_last_place(num, den, exponent - 1),
{
    if exponent > 0 {
        let e = (exponent - 1) as nat;
        lemma_pow2_unfold(exponent as nat);
        assert(den * pow2(exponent as nat) == 2 * (den * pow2(e))) by (nonlinear_arith)
            requires
                pow2(exponent as nat) == 2 * pow2(e),
        ;
    } else {
        let e = (1 - exponent) as nat;
        lemma_pow2_unfold(e);
        if exponent == 0 {
            lemma2_to64();
        }
        assert(num * pow2(e) == (2 * num) * pow2((e - 1) as nat)) by (nonlinear_arith)
            requires
                pow2(e) == 2 * pow2((e - 1) as nat),
        ;
        assert(den * 1 == den);
    }
}

proof fn lemma_doubled(num: nat, den: nat, exponent: int)
    requires
        den > 0,
        float::is_last_place(num, 2 * den, exponent),
    ensures
        float::is_last_place(num, den, exponent + 1),
{
    if exponent >= 0 {
        let e = (exponent + 1) as nat;
        lemma_pow2_unfold(e);
        assert(den * pow2(e) == (2 * den) * pow2(exponent as nat)) by (nonlinear_arith)
            requires
                pow2(e) == 2 * pow2(exponent as nat),
        ;
    } else {
        let e = (-exponent) as nat;
        lemma_pow2_unfold(e);
        if exponent == -1 {
            lemma2_to64();
            assert(den * pow2(0) == den);
            assert(num * pow2(0) == num);
        }
        assert(num * pow2(e) == 2 * (num * pow2((e - 1) as nat))) by (nonlinear_arith)
            requires
                pow2(e) == 2 * pow2((e - 1) as nat),
        ;
    }
}

/// Every positive ratio has 53 significant bits somewhere.
proof fn lemma_place_found(num: nat, den: nat)
    requires
        num > 0,
        den > 0,
    ensures
        exists|exponent: int| float::is_last_place(num, den, exponent),
    decreases
            if 0x10_0000_0000_0000 * den <= num < 0x20_0000_0000_0000 * den {
                0int
            } else {
                1int
            },
            if num < 0x10_0000_0000_0000 * den {
                0x10_0000_0000_0000 * den - num
            } else {
                num - 0x10_0000_0000_0000 * den
            },
{
    if num < 0x10_0000_0000_0000 * den {
        let twice: nat = 2 * num;
        lemma_place_found(twice, den);
        let e = choose|exponent: int| float::is_last_place(twice, den, exponent);
        lemma_halved(num, den, e);
    } else if num >= 0x20_0000_0000_0000 * den {
        let twice: nat = 2 * den;
        lemma_place_found(num, twice);
        let e = choose|exponent: int| float::is_last_place(num, twice, exponent);
        lemma_doubled(num, den, e);
    } else {
        lemma2_to64();
        assert(num * 1 == num && den * 1 == den);
        assert(float::is_last_place(num, den, 0));
    }
}

/// The last place of a ratio is no further out than the ratio itself.
proof fn lemma_place_range(num: nat, den: nat, place: int, low: nat, high: nat)
    requires
        den > 0,
        float::is_last_place(num, den, place),
        num * pow2(low) >= den,
        num <= den * pow2(high),
    ensures
        -low - 53 <= place <= high - 52,
{
    lemma2_to64();
    lemma2_to64_rest();
    lemma_pow2_pos(low);
    lemma_pow2_pos(high);
    if place < -low - 53 {
        let e = (-place) as nat;
        let rest = (e - low) as nat;
        lemma_pow2_adds(low, rest);
        float::lemma_pow2_increases(54, rest);
        assert(num * pow2(e) >= 0x40_0000_0000_0000 * den) by (nonlinear_arith)
            requires
                pow2(e) == pow2(low) * pow2(rest),
                pow2(rest) >= 0x40_0000_0000_0000,
                num * pow2(low) >= den,
                den > 0,
        {
            assert(num * pow2(e) == (num * pow2(low)) * pow2(rest));
        }
    }
    if place > high - 52 {
        if place >= 0 {
            let e = place as nat;
            lemma_pow2_adds(52, e);
            lemma_pow2_strictly_increases(high, 52 + e);
            assert(0x10_0000_0000_0000 * (den * pow2(e)) > den * pow2(high)) by (nonlinear_arith)
                requires
                    0x10_0000_0000_0000 * pow2(e) == pow2((52 + e) as nat),
                    pow2((52 + e) as nat) > pow2(high),
                    den > 0,
            ;
        } else {
            let e = (-place) as nat;
            lemma_pow2_adds(high, e);
            lemma_pow2_strictly_increases(high + e, 52);
            assert(num * pow2(e) < 0x10_0000_0000_0000 * den) by (nonlinear_arith)
                requires
                    num <= den * pow2(high),
                    pow2((high + e) as nat) == pow2(high) * pow2(e),
                    pow2((high + e) as nat) < 0x10_0000_0000_0000,
                    den > 0,
            {
                assert(num * pow2(e) <= (den * pow2(high)) * pow2(e));
                assert((den * pow2(high)) * pow2(e) == den * pow2((high + e) as nat));
            }
        }
    }
}

/// An integer nearest to a ratio misses it by at most a half.
proof fn lemma_nearest(num: nat, den: nat)
    requires
        den > 0,
    ensures
        2 * (float::nearest_even(num, den) * den - num) <= den,
        2 * (num - float::nearest_even(num, den) * den) <= den,
{
    let q = num as int / den as int;
    let r = num as int % den as int;
    vstd::arithmetic::div_mod::lemma_fundamental_div_mod(num as int, den as int);
    assert((q + 1) * den == den * q + den) by (nonlinear_arith);
    assert(q * den == den * q) by (nonlinear_arith);
}

/// One rounding misses the exact value by at most one unit in `2^53`.
proof fn lemma_rounded(num: nat, den: nat, exponent: int, low: nat, high: nat, shift: nat)
    requires
        num > 0,
        den > 0,
        num * pow2(low) >= den,
        num <= den * pow2(high),
        exponent - low - 53 >= -1074,
        exponent + high - 51 <= 971,
        exponent + 1074 + shift >= 0,
    ensures
        ({
            let value = float::rounded(false, num, den, exponent);
            &&& value matches Binary::Finite { negative, mantissa, exponent: place }
            &&& !negative
            &&& 0x10_0000_0000_0000 <= mantissa < 0x20_0000_0000_0000
            &&& exponent - low - 53 <= place <= exponent + high - 51
            &&& within(
                (units(value) * den * pow2(shift)) as int,
                (num * pow2((exponent + 1074 + shift) as nat)) as int,
                1,
            )
        }),
{
    lemma_place_found(num, den);
    let offset = float::last_place(num, den);
    lemma_place_range(num, den, offset, low, high);
    let place = offset + exponent;
    let (n, d) = float::scaled(num, den, offset);
    let m = float::nearest_even(n, d);
    let value = float::rounded(false, num, den, exponent);
    float::lemma_scaled_shift(num, den, offset, 0);
    lemma_nearest(n, d);
    float::lemma_significand(n, d);
    assert(value == float::normal(false, m, place));
    let weight = pow2((place + 1074) as nat);
    assert(units(value) == m * weight) by {
        lemma_pow2_unfold((place + 1075) as nat);
        assert(0x10_0000_0000_0000 * (2 * weight) == 0x20_0000_0000_0000 * weight)
            by (nonlinear_arith);
    }
    assert(within((m * d) as int, n as int, 1)) by {
        assert(0x20_0000_0000_0000 * (m * d - n) <= n && 0x20_0000_0000_0000 * (n - m * d) <= n)
            by (nonlinear_arith)
            requires
                2 * (m * d - n) <= d,
                2 * (n - m * d) <= d,
                0x10_0000_0000_0000 * d <= n,
        ;
    }
    if offset >= 0 {
        let e = (exponent + 1074 + shift) as nat;
        let o = offset as nat;
        within_scaled((m * d) as int, n as int, 1, pow2(e));
        lemma_pow2_adds((place + 1074) as nat, shift);
        lemma_pow2_adds(o, e);
        assert((m * d) * pow2(e) == m * weight * den * pow2(shift)) by (nonlinear_arith)
            requires
                d == den * pow2(o),
                pow2((o + e) as nat) == pow2(o) * pow2(e),
                pow2((o + e) as nat) == weight * pow2(shift),
        {
            assert((m * d) * pow2(e) == m * den * (pow2(o) * pow2(e)));
            assert(m * den * (weight * pow2(shift)) == m * weight * den * pow2(shift));
        }
    } else {
        let up = (-offset) as nat;
        let e = (place + 1074 + shift) as nat;
        within_scaled((m * d) as int, n as int, 1, pow2(e));
        lemma_pow2_adds((place + 1074) as nat, shift);
        lemma_pow2_adds(up, e);
        assert((m * d) * pow2(e) == m * weight * den * pow2(shift)) by (nonlinear_arith)
            requires
                d == den,
                pow2(e) == weight * pow2(shift),
        {
            assert(m * den * (weight * pow2(shift)) == m * weight * den * pow2(shift));
        }
        assert(n * pow2(e) == num * pow2((exponent + 1074 + shift) as nat)) by (nonlinear_arith)
            requires
                n == num * pow2(up),
                pow2((up + e) as nat) == pow2(up) * pow2(e),
                up + e == exponent + 1074 + shift,
        {
            assert(num * pow2(up) * pow2(e) == num * (pow2(up) * pow2(e)));
        }
    }
}

/// An unsigned integer as a double is near to itself.
pub proof fn from_nat_near(n: nat)
    requires
        0 < n <= 0x1_0000_0000_0000_0000,
    ensures
        tame(float::from_nat(n), 53),
        near(float::from_nat(n), n, 1, 1),
{
    lemma2_to64();
    lemma_rounded(n, 1, 0, 0, 64, 0);
    assert(n * 1 == n);
    let value = float::from_nat(n);
    assert(units(value) * 1 * pow2(0) == units(value) * 1);
}

/// An integer of at most 53 bits is a double.
pub proof fn from_nat_exact(n: nat)
    requires
        0 < n < 0x20_0000_0000_0000,
    ensures
        tame(float::from_nat(n), 53),
        near(float::from_nat(n), n, 1, 0),
        units(float::from_nat(n)) == n * one(),
{
    from_nat_near(n);
    lemma_place_found(n, 1);
    let place = float::last_place(n, 1);
    lemma2_to64();
    lemma2_to64_rest();
    assert(n * 1 == n);
    lemma_place_range(n, 1, place, 0, 53);
    if place == 1 {
        assert(1 * pow2(1) == 2);
    } else {
        let up = (-place) as nat;
        if place == 0 {
            assert(1 * pow2(0) == 1);
        }
        let (m, d) = float::scaled(n, 1, place);
        assert(d == 1 && m == n * pow2(up));
        assert(float::nearest_even(m, 1) == m);
        let weight = pow2((place + 1074) as nat);
        lemma_pow2_adds(up, (place + 1074) as nat);
        assert(n * pow2(up) * weight == n * one()) by (nonlinear_arith)
            requires
                one() == pow2(up) * weight,
        ;
        assert(units(float::from_nat(n)) * 1 == units(float::from_nat(n)));
    }
}

/// A quotient of doubles misses the exact one by one unit in `2^53` at most.
pub proof fn quotient_near(a: Binary, b: Binary, first: nat, second: nat)
    requires
        tame(a, first),
        tame(b, second),
        first + second <= 800,
    ensures
        tame(float::quotient(a, b), first + second + 106),
        within(
            (units(float::quotient(a, b)) * units(b)) as int,
            (units(a) * one()) as int,
            1,
        ),
{
    match (a, b) {
        (
            Binary::Finite { mantissa: m, exponent: e, .. },
            Binary::Finite { mantissa: n, exponent: f, .. },
        ) => {
            lemma2_to64();
            lemma2_to64_rest();
            let value = float::quotient(a, b);
            assert(m * 0x20_0000_0000_0000 >= n && m <= n * 0x20_0000_0000_0000)
                by (nonlinear_arith)
                requires
                    0 < m < 0x20_0000_0000_0000,
                    0 < n < 0x20_0000_0000_0000,
            ;
            lemma_rounded(m, n, e - f, 53, 53, (f + 1074) as nat);
            assert(value == float::rounded(false, m, n, e - f));
            lemma_pow2_adds((e + 1074) as nat, 1074);
            assert(units(value) * n * pow2((f + 1074) as nat) == units(value) * units(b))
                by (nonlinear_arith)
                requires
                    units(b) == n * pow2((f + 1074) as nat),
            ;
            assert(m * pow2((e + 2148) as nat) == units(a) * one()) by (nonlinear_arith)
                requires
                    units(a) == m * pow2((e + 1074) as nat),
                    pow2((e + 2148) as nat) == pow2((e + 1074) as nat) * one(),
            ;
        },
        _ => {},
    }
}

/// A product of doubles misses the exact one by one unit in `2^53` at most.
pub proof fn product_near(a: Binary, b: Binary, first: nat, second: nat)
    requires
        tame(a, first),
        tame(b, second),
        first + second <= 800,
    ensures
        tame(float::product(a, b), first + second + 106),
        within(
            (units(float::product(a, b)) * one()) as int,
            (units(a) * units(b)) as int,
            1,
        ),
{
    match (a, b) {
        (
            Binary::Finite { mantissa: m, exponent: e, .. },
            Binary::Finite { mantissa: n, exponent: f, .. },
        ) => {
            lemma2_to64();
            lemma2_to64_rest();
            let value = float::product(a, b);
            assert(pow2(106) == 0x400_0000_0000_0000_0000_0000_0000) by {
                lemma_pow2_adds(53, 53);
            }
            assert(0 < m * n <= 0x400_0000_0000_0000_0000_0000_0000) by (nonlinear_arith)
                requires
                    0 < m < 0x20_0000_0000_0000,
                    0 < n < 0x20_0000_0000_0000,
            ;
            assert((m * n) * 1 == m * n);
            lemma_rounded(m * n, 1, e + f, 0, 106, 1074);
            assert(value == float::rounded(false, m * n, 1, e + f));
            lemma_pow2_adds((e + 1074) as nat, (f + 1074) as nat);
            assert(units(value) * 1 * pow2(1074) == units(value) * one());
            assert((m * n) * pow2((e + f + 2148) as nat) == units(a) * units(b))
                by (nonlinear_arith)
                requires
                    units(a) == m * pow2((e + 1074) as nat),
                    units(b) == n * pow2((f + 1074) as nat),
                    pow2((e + f + 2148) as nat) == pow2((e + 1074) as nat) * pow2(
                        (f + 1074) as nat,
                    ),
            {
                assert((m * n) * (pow2((e + 1074) as nat) * pow2((f + 1074) as nat)) == (m * pow2(
                    (e + 1074) as nat,
                )) * (n * pow2((f + 1074) as nat)));
            }
        },
        _ => {},
    }
}

/// Rounding to an integer, in units of the smallest double.
pub proof fn round_in_units(mantissa: nat, exponent: int)
    requires
        exponent >= -1074,
    ensures
        ({
            let value = mantissa * pow2((exponent + 1074) as nat);
            let whole = float::round_magnitude(mantissa, exponent);
            &&& (2 * whole - 1) * one() <= 2 * value
            &&& 2 * value < (2 * whole + 1) * one()
        }),
{
    let value = mantissa * pow2((exponent + 1074) as nat);
    let whole = float::round_magnitude(mantissa, exponent);
    lemma_pow2_pos(1074);
    if exponent >= 0 {
        lemma_pow2_adds(exponent as nat, 1074);
        assert(value == whole * one()) by (nonlinear_arith)
            requires
                value == mantissa * pow2((exponent + 1074) as nat),
                pow2((exponent + 1074) as nat) == pow2(exponent as nat) * one(),
                whole == mantissa * pow2(exponent as nat),
        ;
        assert((2 * whole - 1) * one() <= 2 * value && 2 * value < (2 * whole + 1) * one())
            by (nonlinear_arith)
            requires
                value == whole * one(),
                one() > 0,
        ;
    } else {
        let down = pow2((-exponent) as nat);
        let weight = pow2((exponent + 1074) as nat);
        lemma_pow2_pos((-exponent) as nat);
        lemma_pow2_pos((exponent + 1074) as nat);
        lemma_pow2_adds((-exponent) as nat, (exponent + 1074) as nat);
        let top = 2 * mantissa + down;
        vstd::arithmetic::div_mod::lemma_fundamental_div_mod(top as int, (2 * down) as int);
        let rest = top as int % (2 * down) as int;
        assert(top == (2 * down) * whole + rest && 0 <= rest < 2 * down);
        assert((2 * whole - 1) * (down * weight) <= 2 * (mantissa * weight) && 2 * (mantissa
            * weight) < (2 * whole + 1) * (down * weight)) by (nonlinear_arith)
            requires
                2 * mantissa + down == (2 * down) * whole + rest,
                0 <= rest < 2 * down,
                weight > 0,
        {
            assert(2 * mantissa >= (2 * whole - 1) * down);
            assert(2 * mantissa < (2 * whole + 1) * down);
            assert((2 * mantissa) * weight >= ((2 * whole - 1) * down) * weight);
            assert((2 * mantissa) * weight < ((2 * whole + 1) * down) * weight);
        }
    }
}

/// Rounding up to an integer, in units of the smallest double.
pub proof fn ceil_in_units(mantissa: nat, exponent: int)
    requires
        exponent >= -1074,
    ensures
        ({
            let value = mantissa * pow2((exponent + 1074) as nat);
            let whole = float::ceil_magnitude(mantissa, exponent);
            &&& (whole - 1) * one() < value
            &&& value <= whole * one()
        }),
{
    let value = mantissa * pow2((exponent + 1074) as nat);
    let whole = float::ceil_magnitude(mantissa, exponent);
    lemma_pow2_pos(1074);
    if exponent >= 0 {
        lemma_pow2_adds(exponent as nat, 1074);
        assert(value == whole * one()) by (nonlinear_arith)
            requires
                value == mantissa * pow2((exponent + 1074) as nat),
                pow2((exponent + 1074) as nat) == pow2(exponent as nat) * one(),
                whole == mantissa * pow2(exponent as nat),
        ;
        assert((whole - 1) * one() < whole * one()) by (nonlinear_arith)
            requires
                one() > 0,
        ;
    } else {
        let down = pow2((-exponent) as nat);
        let weight = pow2((exponent + 1074) as nat);
        lemma_pow2_pos((-exponent) as nat);
        lemma_pow2_pos((exponent + 1074) as nat);
        lemma_pow2_adds((-exponent) as nat, (exponent + 1074) as nat);
        let top = mantissa + down - 1;
        vstd::arithmetic::div_mod::lemma_fundamental_div_mod(top as int, down as int);
        vstd::arithmetic::div_mod::lemma_div_pos_is_pos(top as int, down as int);
        let rest = top as int % down as int;
        assert(top == down * whole + rest && 0 <= rest < down);
        assert((whole - 1) * (down * weight) < mantissa * weight && mantissa * weight <= whole * (
        down * weight)) by (nonlinear_arith)
            requires
                mantissa + down - 1 == down * whole + rest,
                0 <= rest < down,
                weight > 0,
        {
            assert(mantissa > (whole - 1) * down);
            assert(mantissa <= whole * down);
            assert(mantissa * weight > ((whole - 1) * down) * weight);
            assert(mantissa * weight <= (whole * down) * weight);
        }
    }
}

/// A product that does not exceed a whole number is not rounded beyond it.
pub proof fn product_stays_below(a: Binary, b: Binary, whole: nat)
    requires
        tame(a, 53),
        tame(b, 212),
        0 < whole < 0x20_0000_0000_0000,
        units(a) * units(b) <= (whole * one()) * one(),
    ensures
        units(float::product(a, b)) <= whole * one(),
{
    match (a, b) {
        (
            Binary::Finite { mantissa: m, exponent: e, .. },
            Binary::Finite { mantissa: k, exponent: f, .. },
        ) => {
            lemma2_to64();
            lemma2_to64_rest();
            lemma_pow2_pos(1074);
            assert(pow2(106) == 0x400_0000_0000_0000_0000_0000_0000) by {
                lemma_pow2_adds(53, 53);
            }
            let num = m * k;
            assert(0 < num && num <= 0x400_0000_0000_0000_0000_0000_0000) by (nonlinear_arith)
                requires
                    num == m * k,
                    0 < m < 0x20_0000_0000_0000,
                    0 < k < 0x20_0000_0000_0000,
            ;
            let exponent = e + f;
            assert(num * pow2(0) >= 1 && num <= 1 * pow2(106));
            lemma_rounded(num, 1, exponent, 0, 106, 0);
            lemma_place_found(num, 1);
            let offset = float::last_place(num, 1);
            lemma_place_range(num, 1, offset, 0, 106);
            let place = offset + exponent;
            let (n, d) = float::scaled(num, 1, offset);
            float::lemma_scaled_shift(num, 1, offset, 0);
            float::lemma_significand(n, d);
            let rounded = float::nearest_even(n, d);
            let value = float::product(a, b);
            assert(value == float::normal(false, rounded, place));
            let weight = pow2((place + 1074) as nat);
            lemma_pow2_pos((place + 1074) as nat);
            assert(units(value) == rounded * weight) by {
                lemma_pow2_unfold((place + 1075) as nat);
                assert(0x10_0000_0000_0000 * (2 * weight) == 0x20_0000_0000_0000 * weight)
                    by (nonlinear_arith);
            }
            let exact = num * pow2((exponent + 1074) as nat);
            lemma_pow2_adds((e + 1074) as nat, (f + 1074) as nat);
            lemma_pow2_adds((exponent + 1074) as nat, 1074);
            let pe = pow2((e + 1074) as nat);
            let pf = pow2((f + 1074) as nat);
            let px = pow2((exponent + 1074) as nat);
            let o = one();
            assert((m * pe) * (k * pf) == exact * o) by (nonlinear_arith)
                requires
                    exact == (m * k) * px,
                    pe * pf == px * o,
            {
                assert((m * pe) * (k * pf) == (m * k) * (pe * pf));
                assert((m * k) * (px * o) == ((m * k) * px) * o);
            }
            assert(exact <= whole * o) by (nonlinear_arith)
                requires
                    exact * o <= (whole * o) * o,
                    o > 0,
            ;
            assert(n * weight == d * exact) by {
                if offset >= 0 {
                    lemma_pow2_adds(offset as nat, (exponent + 1074) as nat);
                    let po = pow2(offset as nat);
                    assert(num * (po * px) == (1 * po) * (num * px)) by (nonlinear_arith);
                } else {
                    lemma_pow2_adds((-offset) as nat, (place + 1074) as nat);
                    let po = pow2((-offset) as nat);
                    assert((num * po) * weight == 1 * (num * (po * weight))) by (nonlinear_arith);
                }
            }
            if place > 0 {
                lemma_pow2_adds(place as nat, 1074);
                float::lemma_pow2_increases(1, place as nat);
                assert(weight >= 2 * o) by (nonlinear_arith)
                    requires
                        weight == pow2(place as nat) * o,
                        pow2(place as nat) >= 2,
                        o > 0,
                ;
                assert(false) by (nonlinear_arith)
                    requires
                        n * weight == d * exact,
                        exact <= whole * o,
                        whole < 0x20_0000_0000_0000,
                        0x10_0000_0000_0000 * d <= n,
                        weight >= 2 * o,
                        o > 0,
                        d > 0,
                {
                    assert(n * weight >= (0x10_0000_0000_0000 * d) * (2 * o));
                    assert(d * exact <= d * (whole * o));
                    assert(whole * o < 0x20_0000_0000_0000 * o);
                    assert(d * (whole * o) < d * (0x20_0000_0000_0000 * o));
                    assert((0x10_0000_0000_0000 * d) * (2 * o) == d * (0x20_0000_0000_0000 * o));
                }
            }
            let up = pow2((-place) as nat);
            lemma_pow2_adds((-place) as nat, (place + 1074) as nat);
            let ceiling = whole * up;
            assert(ceiling * weight == whole * o) by (nonlinear_arith)
                requires
                    ceiling == whole * up,
                    up * weight == o,
            ;
            assert(n <= ceiling * d) by (nonlinear_arith)
                requires
                    n * weight == d * exact,
                    exact <= whole * o,
                    ceiling * weight == whole * o,
                    weight > 0,
                    d > 0,
            {
                assert(d * exact <= d * (ceiling * weight));
                assert(d * (ceiling * weight) == (ceiling * d) * weight);
            }
            lemma_nearest_below(n, d, ceiling);
            assert(rounded * weight <= ceiling * weight) by (nonlinear_arith)
                requires
                    rounded <= ceiling,
                    weight > 0,
            ;
        },
        _ => {},
    }
}

/// What is nearest to a ratio does not exceed a whole number that the ratio
/// does not.
proof fn lemma_nearest_below(num: nat, den: nat, ceiling: nat)
    requires
        den > 0,
        num <= ceiling * den,
    ensures
        float::nearest_even(num, den) <= ceiling,
{
    let q = num as int / den as int;
    let r = num as int % den as int;
    vstd::arithmetic::div_mod::lemma_fundamental_div_mod(num as int, den as int);
    assert(q < ceiling || (q == ceiling && r == 0)) by (nonlinear_arith)
        requires
            num == den * q + r,
            0 <= r < den,
            num <= ceiling * den,
    ;
}

/// Half of a whole number is a double.
pub proof fn half_is_exact(n: nat)
    requires
        0 < n < 0x20_0000_0000_0000,
    ensures
        ({
            let half = float::product(float::from_nat(n), float::decode(0x3FE0_0000_0000_0000));
            &&& tame(half, 265)
            &&& 2 * units(half) == n * one()
        }),
{
    let a = float::from_nat(n);
    let b = float::decode(0x3FE0_0000_0000_0000);
    lemma2_to64();
    lemma2_to64_rest();
    from_nat_exact(n);
    assert(n * 1 == n);
    lemma_rounded(n, 1, 0, 0, 64, 0);
    assert(b == (Binary::Finite { negative: false, mantissa: 0x10_0000_0000_0000, exponent: -53 }));
    match a {
        Binary::Finite { mantissa: m, exponent: e, .. } => {
            let num = m * 0x10_0000_0000_0000;
            let d = 1 * pow2(52);
            assert(float::scaled(num, 1, 52) == (num, d));
            assert(float::is_last_place(num, 1, 52)) by {
                assert(0x10_0000_0000_0000 * d <= num < 0x20_0000_0000_0000 * d)
                    by (nonlinear_arith)
                    requires
                        d == 0x10_0000_0000_0000,
                        num == m * 0x10_0000_0000_0000,
                        0x10_0000_0000_0000 <= m < 0x20_0000_0000_0000,
                ;
            }
            float::lemma_last_place(num, 1, 52);
            float::lemma_nearest_even_multiplied(m, 1, 0x10_0000_0000_0000);
            assert(float::nearest_even(m, 1) == m);
            let place = 52 + (e - 53);
            let half = float::product(a, b);
            assert(half == float::normal(false, m, place));
            lemma_pow2_unfold((e + 1074) as nat);
            let weight = pow2((place + 1074) as nat);
            assert(m * (2 * weight) == 2 * (m * weight)) by (nonlinear_arith);
        },
        _ => {},
    }
}

/// Dropping the fraction goes down by less than one.
pub proof fn floor_in_units(mantissa: nat, exponent: int)
    requires
        exponent >= -1074,
    ensures
        ({
            let value = mantissa * pow2((exponent + 1074) as nat);
            let whole = float::floor_magnitude(mantissa, exponent);
            &&& whole * one() <= value
            &&& value < (whole + 1) * one()
        }),
{
    let value = mantissa * pow2((exponent + 1074) as nat);
    let whole = float::floor_magnitude(mantissa, exponent);
    lemma_pow2_pos(1074);
    if exponent >= 0 {
        lemma_pow2_adds(exponent as nat, 1074);
        assert(value == whole * one()) by (nonlinear_arith)
            requires
                value == mantissa * pow2((exponent + 1074) as nat),
                pow2((exponent + 1074) as nat) == pow2(exponent as nat) * one(),
                whole == mantissa * pow2(exponent as nat),
        ;
        assert((whole + 1) * one() > whole * one()) by (nonlinear_arith)
            requires
                one() > 0,
        ;
    } else {
        let down = (-exponent) as nat;
        let rest = (exponent + 1074) as nat;
        lemma_pow2_adds(down, rest);
        lemma_pow2_pos(down);
        lemma_pow2_pos(rest);
        let d = pow2(down);
        let r = pow2(rest);
        vstd::arithmetic::div_mod::lemma_fundamental_div_mod(mantissa as int, d as int);
        let left = mantissa as int % d as int;
        assert(whole * (d * r) <= mantissa * r && mantissa * r < (whole + 1) * (d * r))
            by (nonlinear_arith)
            requires
                mantissa == d * whole + left,
                0 <= left < d,
                r > 0,
        {
            assert(mantissa * r == whole * (d * r) + left * r);
            assert(0 <= left * r);
            assert(left * r < d * r);
            assert((whole + 1) * (d * r) == whole * (d * r) + d * r);
        }
    }
}

/// Tenths of a double are the nearest to it.
pub proof fn tenths_in_units(mantissa: nat, exponent: int)
    requires
        exponent >= -1074,
    ensures
        ({
            let value = mantissa * pow2((exponent + 1074) as nat);
            let tenths = float::tenths_of(Binary::Finite { negative: false, mantissa, exponent });
            &&& (2 * tenths - 1) * one() <= 20 * value
            &&& 20 * value <= (2 * tenths + 1) * one()
        }),
{
    let value = mantissa * pow2((exponent + 1074) as nat);
    let tenths = float::tenths_of(Binary::Finite { negative: false, mantissa, exponent });
    let (n, d) = float::scaled(10 * mantissa, 1, -exponent);
    lemma_pow2_pos(1074);
    lemma_pow2_pos((exponent + 1074) as nat);
    if exponent <= 0 {
        let down = (-exponent) as nat;
        lemma_pow2_pos(down);
        lemma_pow2_adds(down, (exponent + 1074) as nat);
        let w = pow2((exponent + 1074) as nat);
        assert(d == pow2(down));
        lemma_nearest(n, d);
        assert((2 * tenths - 1) * (d * w) <= 20 * (mantissa * w) && 20 * (mantissa * w) <= (2
            * tenths + 1) * (d * w)) by (nonlinear_arith)
            requires
                2 * (tenths * d - n) <= d,
                2 * (n - tenths * d) <= d,
                n == 10 * mantissa,
                w > 0,
        {
            assert((2 * tenths - 1) * d <= 2 * n);
            assert(2 * n <= (2 * tenths + 1) * d);
            assert(((2 * tenths - 1) * d) * w <= (2 * n) * w);
            assert((2 * n) * w <= ((2 * tenths + 1) * d) * w);
        }
    } else {
        let up = exponent as nat;
        lemma_pow2_adds(up, 1074);
        assert(n == (10 * mantissa) * pow2(up));
        assert(d == 1);
        lemma_nearest(n, d);
        assert(tenths == n);
        let p = pow2(up);
        let o = one();
        assert(20 * (mantissa * (p * o)) == (2 * n) * o) by (nonlinear_arith)
            requires
                n == (10 * mantissa) * p,
        ;
        assert((2 * n - 1) * o <= (2 * n) * o && (2 * n) * o <= (2 * n + 1) * o)
            by (nonlinear_arith)
            requires
                o > 0,
        ;
    }
}

} // verus!
