//! Binary64 arithmetic carried out on plain integers.
//!
//! The signal chain converts between microseconds and samples with IEEE 754
//! double precision. Here a double is its 64-bit pattern, and the handful of
//! operations the chain needs (product, quotient, and the roundings to an
//! integer) are computed exactly and then rounded once, to nearest with ties
//! to even, as the standard prescribes.

pub mod error;

use vstd::arithmetic::power2::*;
use vstd::prelude::*;

verus! {

/// The smallest significand of a normal number, two to the power 52.
pub const HIDDEN_BIT: u64 = 0x10_0000_0000_0000;

/// One past the largest significand, two to the power 53.
pub const SIGNIFICAND_END: u64 = 0x20_0000_0000_0000;

/// The weight of the last place of the smallest normal numbers.
pub const MIN_EXPONENT: i32 = -1074;

/// The weight of the last place of the largest finite numbers.
pub const MAX_EXPONENT: i32 = 971;

/// What a double stands for. A finite value is `mantissa * 2^exponent`, with
/// the sign kept apart so that zero can carry one.
pub enum Binary {
    Nan,
    Infinite { negative: bool },
    Finite { negative: bool, mantissa: nat, exponent: int },
}

/// A double, as its IEEE 754 bit pattern.
#[derive(Debug, Clone, Copy)]
pub struct Float {
    pub bits: u64,
}

/// The value of a bit pattern: one sign bit, eleven exponent bits and 52
/// fraction bits.
pub open spec fn decode(bits: u64) -> Binary {
    let negative = bits as int / 0x8000_0000_0000_0000 == 1;
    let biased = (bits as int / HIDDEN_BIT as int) % 2048;
    let fraction = bits as int % HIDDEN_BIT as int;
    if biased == 2047 {
        if fraction == 0 {
            Binary::Infinite { negative }
        } else {
            Binary::Nan
        }
    } else if biased == 0 {
        Binary::Finite { negative, mantissa: fraction as nat, exponent: MIN_EXPONENT as int }
    } else {
        Binary::Finite {
            negative,
            mantissa: (HIDDEN_BIT + fraction) as nat,
            exponent: biased - 1075,
        }
    }
}

impl View for Float {
    type V = Binary;

    open spec fn view(&self) -> Binary {
        decode(self.bits)
    }
}

/// The integer nearest to `num / den`, the even one of the two where the
/// quotient lies half way between them.
pub open spec fn nearest_even(num: nat, den: nat) -> nat {
    let quotient = num / den;
    let rest = num % den;
    if 2 * rest < den || (2 * rest == den && quotient % 2 == 0) {
        quotient
    } else {
        quotient + 1
    }
}

/// `num / den` divided by `2^exponent`, as a numerator and a denominator.
pub open spec fn scaled(num: nat, den: nat, exponent: int) -> (nat, nat) {
    if exponent >= 0 {
        (num, den * pow2(exponent as nat))
    } else {
        (num * pow2((-exponent) as nat), den)
    }
}

/// Whether `2^exponent` is the weight of the last of 53 significant bits of
/// `num / den`.
pub open spec fn is_last_place(num: nat, den: nat, exponent: int) -> bool {
    let (n, d) = scaled(num, den, exponent);
    HIDDEN_BIT * d <= n < SIGNIFICAND_END * d
}

/// The weight of the last of 53 significant bits of `num / den`, as a power
/// of two.
pub open spec fn last_place(num: nat, den: nat) -> int {
    choose|exponent: int| is_last_place(num, den, exponent)
}

/// The double nearest to `num / den * 2^exponent`, ties to even; infinite
/// where that is out of range.
pub open spec fn rounded(negative: bool, num: nat, den: nat, exponent: int) -> Binary {
    if num == 0 {
        Binary::Finite { negative, mantissa: 0, exponent: MIN_EXPONENT as int }
    } else {
        let unit = last_place(num, den) + exponent;
        let place = if unit < MIN_EXPONENT {
            MIN_EXPONENT as int
        } else {
            unit
        };
        let (n, d) = scaled(num, den, place - exponent);
        normal(negative, nearest_even(n, d), place)
    }
}

/// `mantissa * 2^exponent` with a rounding carry moved into the exponent.
pub open spec fn normal(negative: bool, mantissa: nat, exponent: int) -> Binary {
    let carried = mantissa == SIGNIFICAND_END;
    let m = if carried {
        HIDDEN_BIT as nat
    } else {
        mantissa
    };
    let e = if carried {
        exponent + 1
    } else {
        exponent
    };
    if e > MAX_EXPONENT {
        Binary::Infinite { negative }
    } else {
        Binary::Finite { negative, mantissa: m, exponent: e }
    }
}

/// The IEEE 754 product.
pub open spec fn product(a: Binary, b: Binary) -> Binary {
    match (a, b) {
        (Binary::Nan, _) => Binary::Nan,
        (_, Binary::Nan) => Binary::Nan,
        (Binary::Infinite { negative: s }, Binary::Infinite { negative: t }) => Binary::Infinite {
            negative: s != t,
        },
        (Binary::Infinite { negative: s }, Binary::Finite { negative: t, mantissa, .. }) => {
            if mantissa == 0 {
                Binary::Nan
            } else {
                Binary::Infinite { negative: s != t }
            }
        },
        (Binary::Finite { negative: s, mantissa, .. }, Binary::Infinite { negative: t }) => {
            if mantissa == 0 {
                Binary::Nan
            } else {
                Binary::Infinite { negative: s != t }
            }
        },
        (
            Binary::Finite { negative: s, mantissa: m, exponent: e },
            Binary::Finite { negative: t, mantissa: n, exponent: f },
        ) => rounded(s != t, m * n, 1, e + f),
    }
}

/// The IEEE 754 quotient.
pub open spec fn quotient(a: Binary, b: Binary) -> Binary {
    match (a, b) {
        (Binary::Nan, _) => Binary::Nan,
        (_, Binary::Nan) => Binary::Nan,
        (Binary::Infinite { .. }, Binary::Infinite { .. }) => Binary::Nan,
        (Binary::Infinite { negative: s }, Binary::Finite { negative: t, .. }) => Binary::Infinite {
            negative: s != t,
        },
        (Binary::Finite { negative: s, .. }, Binary::Infinite { negative: t }) => Binary::Finite {
            negative: s != t,
            mantissa: 0,
            exponent: MIN_EXPONENT as int,
        },
        (
            Binary::Finite { negative: s, mantissa: m, exponent: e },
            Binary::Finite { negative: t, mantissa: n, exponent: f },
        ) => if n == 0 {
            if m == 0 {
                Binary::Nan
            } else {
                Binary::Infinite { negative: s != t }
            }
        } else {
            rounded(s != t, m, n, e - f)
        },
    }
}

/// The double nearest to an unsigned integer.
pub open spec fn from_nat(value: nat) -> Binary {
    rounded(false, value, 1, 0)
}

/// `mantissa * 2^exponent` without its fraction.
pub open spec fn floor_magnitude(mantissa: nat, exponent: int) -> nat {
    if exponent >= 0 {
        mantissa * pow2(exponent as nat)
    } else {
        mantissa / pow2((-exponent) as nat)
    }
}

/// `mantissa * 2^exponent` rounded to the nearest integer, halves upwards.
pub open spec fn round_magnitude(mantissa: nat, exponent: int) -> nat {
    if exponent >= 0 {
        mantissa * pow2(exponent as nat)
    } else {
        (2 * mantissa + pow2((-exponent) as nat)) / (2 * pow2((-exponent) as nat))
    }
}

/// `mantissa * 2^exponent` rounded up to an integer.
pub open spec fn ceil_magnitude(mantissa: nat, exponent: int) -> nat {
    if exponent >= 0 {
        mantissa * pow2(exponent as nat)
    } else {
        ((mantissa + pow2((-exponent) as nat) - 1) / pow2((-exponent) as nat) as int) as nat
    }
}

/// `value` brought into `low..=high`.
pub open spec fn clamped(value: int, low: int, high: int) -> int {
    if value < low {
        low
    } else if value > high {
        high
    } else {
        value
    }
}

/// Rounds to the nearest integer, halves away from zero, and brings the
/// result into `low..=high`; NaN gives 0.
pub open spec fn round_into(value: Binary, low: int, high: int) -> int {
    match value {
        Binary::Nan => 0,
        Binary::Infinite { negative } => if negative {
            low
        } else {
            high
        },
        Binary::Finite { negative, mantissa, exponent } => clamped(
            if negative {
                -round_magnitude(mantissa, exponent)
            } else {
                round_magnitude(mantissa, exponent) as int
            },
            low,
            high,
        ),
    }
}

/// Rounds up to an integer and brings the result into `low..=high`; NaN
/// gives 0.
pub open spec fn ceil_into(value: Binary, low: int, high: int) -> int {
    match value {
        Binary::Nan => 0,
        Binary::Infinite { negative } => if negative {
            low
        } else {
            high
        },
        Binary::Finite { negative, mantissa, exponent } => clamped(
            if negative {
                -floor_magnitude(mantissa, exponent)
            } else {
                ceil_magnitude(mantissa, exponent) as int
            },
            low,
            high,
        ),
    }
}

/// Drops the fraction and brings the result into `low..=high`; NaN gives 0.
pub open spec fn trunc_into(value: Binary, low: int, high: int) -> int {
    match value {
        Binary::Nan => 0,
        Binary::Infinite { negative } => if negative {
            low
        } else {
            high
        },
        Binary::Finite { negative, mantissa, exponent } => clamped(
            if negative {
                -floor_magnitude(mantissa, exponent)
            } else {
                floor_magnitude(mantissa, exponent) as int
            },
            low,
            high,
        ),
    }
}

/// Whether a value is a positive number, neither infinite nor NaN.
pub open spec fn positive(value: Binary) -> bool {
    value matches Binary::Finite { negative, mantissa, .. } && !negative && mantissa > 0
}

/// Ten times a finite value, without its sign, rounded to the nearest integer,
/// ties to even.
pub open spec fn tenths_of(value: Binary) -> nat {
    match value {
        Binary::Finite { mantissa, exponent, .. } => {
            let (n, d) = scaled(10 * mantissa, 1, -exponent);
            nearest_even(n, d)
        },
        _ => 0,
    }
}

/// Whether a value is finite, and its last place no higher than that.
pub open spec fn places_up_to(value: Binary, place: int) -> bool {
    value matches Binary::Finite { exponent, .. } && exponent <= place
}

/// A quotient of naturals does not change when both sides are multiplied.
proof fn lemma_nearest_even_multiplied(num: nat, den: nat, factor: nat)
    requires
        den > 0,
        factor > 0,
    ensures
        nearest_even(num * factor, den * factor) == nearest_even(num, den),
{
    let q = num as int / den as int;
    let r = num as int % den as int;
    vstd::arithmetic::div_mod::lemma_fundamental_div_mod(num as int, den as int);
    assert(num * factor == q * (den * factor) + r * factor) by (nonlinear_arith)
        requires
            num == den * q + r,
    ;
    assert(0 <= r * factor < den * factor) by (nonlinear_arith)
        requires
            0 <= r < den,
            factor > 0,
    ;
    vstd::arithmetic::div_mod::lemma_fundamental_div_mod_converse(
        (num * factor) as int,
        (den * factor) as int,
        q,
        r * factor,
    );
    assert((2 * (r * factor) < den * factor) == (2 * r < den)) by (nonlinear_arith)
        requires
            factor > 0,
    ;
    assert((2 * (r * factor) == den * factor) == (2 * r == den)) by (nonlinear_arith)
        requires
            factor > 0,
    ;
}

/// Equal ratios round to the same integer.
proof fn lemma_nearest_even_same_ratio(n1: nat, d1: nat, n2: nat, d2: nat)
    requires
        d1 > 0,
        d2 > 0,
        n1 * d2 == n2 * d1,
    ensures
        nearest_even(n1, d1) == nearest_even(n2, d2),
{
    lemma_nearest_even_multiplied(n1, d1, d2);
    lemma_nearest_even_multiplied(n2, d2, d1);
    assert(d1 * d2 == d2 * d1) by (nonlinear_arith);
}

/// Raising the exponent by `k` divides the scaled ratio by `2^k`.
proof fn lemma_scaled_shift(num: nat, den: nat, exponent: int, k: nat)
    requires
        den > 0,
    ensures
        ({
            let (n, d) = scaled(num, den, exponent);
            let (n2, d2) = scaled(num, den, exponent + k);
            &&& d > 0
            &&& d2 > 0
            &&& n2 * (d * pow2(k)) == n * d2
        }),
{
    let (n, d) = scaled(num, den, exponent);
    let (n2, d2) = scaled(num, den, exponent + k);
    lemma_pow2_pos(k);
    if exponent >= 0 {
        let e = exponent as nat;
        lemma_pow2_pos(e);
        lemma_pow2_pos(e + k);
        lemma_pow2_adds(e, k);
        assert(d > 0) by (nonlinear_arith)
            requires
                d == den * pow2(e),
                den > 0,
                pow2(e) > 0,
        ;
        assert(d2 == d * pow2(k)) by (nonlinear_arith)
            requires
                d == den * pow2(e),
                d2 == den * pow2(e + k),
                pow2(e + k) == pow2(e) * pow2(k),
        ;
        assert(d2 > 0) by (nonlinear_arith)
            requires
                d2 == d * pow2(k),
                d > 0,
                pow2(k) > 0,
        ;
    } else if exponent + k >= 0 {
        let a = (-exponent) as nat;
        let b = (exponent + k) as nat;
        lemma_pow2_pos(a);
        lemma_pow2_pos(b);
        lemma_pow2_adds(a, b);
        assert(a + b == k);
        assert(d2 > 0) by (nonlinear_arith)
            requires
                d2 == den * pow2(b),
                den > 0,
                pow2(b) > 0,
        ;
        assert(n2 * (d * pow2(k)) == n * d2) by (nonlinear_arith)
            requires
                n2 == num,
                d == den,
                pow2(k) == pow2(a) * pow2(b),
                n == num * pow2(a),
                d2 == den * pow2(b),
        ;
    } else {
        let a = (-exponent) as nat;
        let c = (-(exponent + k)) as nat;
        lemma_pow2_adds(c, k);
        assert(a == c + k);
        assert(n2 * (d * pow2(k)) == n * d2) by (nonlinear_arith)
            requires
                n2 == num * pow2(c),
                d == den,
                d2 == den,
                pow2(a) == pow2(c) * pow2(k),
                n == num * pow2(a),
        ;
    }
}

/// A ratio has one last place only.
proof fn lemma_last_place_unique(num: nat, den: nat, e1: int, e2: int)
    requires
        den > 0,
        is_last_place(num, den, e1),
        is_last_place(num, den, e2),
    ensures
        e1 == e2,
{
    if e1 < e2 {
        lemma_last_place_order(num, den, e1, e2);
    } else if e2 < e1 {
        lemma_last_place_order(num, den, e2, e1);
    }
}

proof fn lemma_last_place_order(num: nat, den: nat, e1: int, e2: int)
    requires
        den > 0,
        is_last_place(num, den, e1),
        e1 < e2,
    ensures
        !is_last_place(num, den, e2),
{
    let k = (e2 - e1) as nat;
    let (n1, d1) = scaled(num, den, e1);
    let (n2, d2) = scaled(num, den, e2);
    lemma_scaled_shift(num, den, e1, k);
    lemma_pow2_unfold(k);
    lemma_pow2_pos((k - 1) as nat);
    assert(pow2(k) >= 2);
    if HIDDEN_BIT * d2 <= n2 {
        assert(n1 * d2 >= SIGNIFICAND_END * d1 * d2) by (nonlinear_arith)
            requires
                n2 * (d1 * pow2(k)) == n1 * d2,
                HIDDEN_BIT * d2 <= n2,
                pow2(k) >= 2,
                d1 > 0,
                d2 > 0,
                SIGNIFICAND_END == 2 * HIDDEN_BIT,
        ;
        assert(false) by (nonlinear_arith)
            requires
                n1 * d2 >= SIGNIFICAND_END * d1 * d2,
                n1 < SIGNIFICAND_END * d1,
                d2 > 0,
        ;
    }
}

/// The last place is the exponent that fits.
proof fn lemma_last_place(num: nat, den: nat, exponent: int)
    requires
        den > 0,
        is_last_place(num, den, exponent),
    ensures
        last_place(num, den) == exponent,
{
    lemma_last_place_unique(num, den, last_place(num, den), exponent);
}

/// `2^exponent` for the small exponents that occur.
fn power_of_two(exponent: u32) -> (power: u128)
    requires
        exponent < 128,
    ensures
        power == pow2(exponent as nat),
{
    let mut power: u128 = 1;
    let mut i: u32 = 0;
    proof {
        lemma2_to64();
    }
    while i < exponent
        invariant
            i <= exponent < 128,
            power == pow2(i as nat),
        decreases exponent - i,
    {
        proof {
            lemma_pow2_unfold((i + 1) as nat);
            lemma_power_of_two_bound((i + 1) as nat);
        }
        power = power * 2;
        i = i + 1;
    }
    power
}

proof fn lemma_pow2_increases(low: nat, high: nat)
    requires
        low <= high,
    ensures
        pow2(low) <= pow2(high),
{
    if low < high {
        lemma_pow2_strictly_increases(low, high);
    }
}

proof fn lemma_large_power()
    ensures
        pow2(107) == 0x800_0000_0000_0000_0000_0000_0000,
{
    lemma_pow2_adds(53, 54);
    lemma2_to64();
    lemma2_to64_rest();
}

/// A ratio between the significands rounds to one of them.
proof fn lemma_significand(num: nat, den: nat)
    requires
        den > 0,
        0x10_0000_0000_0000 * den <= num < 0x20_0000_0000_0000 * den,
    ensures
        HIDDEN_BIT <= nearest_even(num, den) <= SIGNIFICAND_END,
{
    let q = num as int / den as int;
    vstd::arithmetic::div_mod::lemma_fundamental_div_mod(num as int, den as int);
    assert(0x10_0000_0000_0000 <= q < 0x20_0000_0000_0000) by (nonlinear_arith)
        requires
            num == den * q + num % den,
            0 <= num % den < den,
            0x10_0000_0000_0000 * den <= num < 0x20_0000_0000_0000 * den,
    ;
}

/// A ratio below the significands rounds to at most the first of them.
proof fn lemma_small_significand(num: nat, den: nat)
    requires
        den > 0,
        num < 0x10_0000_0000_0000 * den,
    ensures
        nearest_even(num, den) <= HIDDEN_BIT,
{
    let q = num as int / den as int;
    vstd::arithmetic::div_mod::lemma_fundamental_div_mod(num as int, den as int);
    assert(q < 0x10_0000_0000_0000) by (nonlinear_arith)
        requires
            num == den * q + num % den,
            0 <= num % den < den,
            num < 0x10_0000_0000_0000 * den,
    ;
}

/// A ratio below a quarter rounds to zero.
proof fn lemma_tiny_ratio(num: nat, den: nat)
    requires
        4 * num < den,
    ensures
        nearest_even(num, den) == 0,
{
    vstd::arithmetic::div_mod::lemma_fundamental_div_mod_converse(
        num as int,
        den as int,
        0,
        num as int,
    );
}

proof fn lemma_power_of_two_bound(exponent: nat)
    requires
        exponent < 128,
    ensures
        pow2(exponent) <= u128::MAX,
        0 < pow2(exponent),
{
    lemma_pow2_pos(exponent);
    lemma_pow2_adds(64, 63);
    lemma2_to64();
    lemma2_to64_rest();
    if exponent < 127 {
        lemma_pow2_strictly_increases(exponent, 127);
    }
}

/// What is left of a pattern once its fields are told apart.
enum Fields {
    Nan,
    Infinite { negative: bool },
    Finite { negative: bool, mantissa: u64, exponent: i32 },
}

impl Fields {
    spec fn matches(self, value: Binary) -> bool {
        match (self, value) {
            (Fields::Nan, Binary::Nan) => true,
            (Fields::Infinite { negative: s }, Binary::Infinite { negative: t }) => s == t,
            (
                Fields::Finite { negative: s, mantissa: m, exponent: e },
                Binary::Finite { negative: t, mantissa: n, exponent: f },
            ) => s == t && m == n && e == f && m < SIGNIFICAND_END && MIN_EXPONENT <= e
                <= MAX_EXPONENT,
            _ => false,
        }
    }
}

/// The double nearest to `num / den * 2^exponent`.
fn round_ratio(negative: bool, num: u128, den: u128, exponent: i32) -> (result: Float)
    requires
        num < 0x400_0000_0000_0000_0000_0000_0000,
        0 < den < SIGNIFICAND_END,
        -5000 <= exponent <= 5000,
    ensures
        result@ == rounded(negative, num as nat, den as nat, exponent as int),
{
    if num == 0 {
        return pack(negative, 0, MIN_EXPONENT);
    }
    let mut n: u128 = num;
    let mut d: u128 = den;
    let mut e: i32 = 0;
    proof {
        lemma2_to64();
        assert(den * 1 == den);
    }
    while n >= 0x20_0000_0000_0000 * d
        invariant
            n == num,
            num < 0x400_0000_0000_0000_0000_0000_0000,
            0 < den < SIGNIFICAND_END,
            0 < d < 0x40_0000_0000_0000,
            0 <= e <= 54,
            e == 0 || n >= 0x10_0000_0000_0000 * d,
            d >= pow2(e as nat),
            scaled(num as nat, den as nat, e as int) == (n as nat, d as nat),
        decreases n - d,
    {
        proof {
            lemma_pow2_unfold((e + 1) as nat);
            assert(den * pow2((e + 1) as nat) == 2 * (den * pow2(e as nat))) by (nonlinear_arith)
                requires
                    pow2((e + 1) as nat) == 2 * pow2(e as nat),
            ;
            lemma2_to64();
            if e >= 54 {
                lemma2_to64_rest();
                lemma_pow2_increases(54, e as nat);
            }
        }
        d = d * 2;
        e = e + 1;
    }
    while n < 0x10_0000_0000_0000 * d
        invariant
            0 < n < 0x400_0000_0000_0000_0000_0000_0000,
            0 < den < SIGNIFICAND_END,
            0 < d < 0x40_0000_0000_0000,
            -107 <= e <= 54,
            e > 0 ==> n >= 0x10_0000_0000_0000 * d,
            e <= 0 ==> n >= pow2((-e) as nat) && d == den,
            n < 0x20_0000_0000_0000 * d,
            scaled(num as nat, den as nat, e as int) == (n as nat, d as nat),
        decreases 0x20_0000_0000_0000 * d - n,
    {
        proof {
            let k = (-e) as nat;
            lemma_pow2_unfold(k + 1);
            assert(num * pow2(k + 1) == 2 * (num * pow2(k))) by (nonlinear_arith)
                requires
                    pow2(k + 1) == 2 * pow2(k),
            ;
            lemma2_to64();
            if k == 0 {
                assert(num * 1 == num);
            }
            if k >= 107 {
                lemma_large_power();
                lemma_pow2_increases(107, k);
            }
        }
        n = n * 2;
        e = e - 1;
    }
    proof {
        lemma_last_place(num as nat, den as nat, e as int);
    }
    let unit: i32 = e + exponent;
    if unit >= MIN_EXPONENT {
        let m: u128 = divide_nearest_even(n, d);
        proof {
            lemma_significand(n as nat, d as nat);
        }
        return finish(negative, m as u64, unit);
    }
    let k: u32 = (MIN_EXPONENT - unit) as u32;
    proof {
        lemma_scaled_shift(num as nat, den as nat, e as int, k as nat);
    }
    if k > 54 {
        proof {
            lemma2_to64_rest();
            lemma_pow2_increases(55, k as nat);
            let (n2, d2) = scaled(num as nat, den as nat, e + k);
            assert(4 * n < d * pow2(k as nat)) by (nonlinear_arith)
                requires
                    n < 0x20_0000_0000_0000 * d,
                    pow2(k as nat) >= 0x80_0000_0000_0000,
                    d > 0,
            ;
            lemma_tiny_ratio(n as nat, d as nat * pow2(k as nat));
            lemma_nearest_even_same_ratio(n2, d2, n as nat, d as nat * pow2(k as nat));
        }
        return pack(negative, 0, MIN_EXPONENT);
    }
    let power: u128 = power_of_two(k);
    proof {
        lemma2_to64();
        lemma2_to64_rest();
        lemma_pow2_increases(1, k as nat);
        lemma_pow2_increases(k as nat, 54);
        assert(0 < d * power < 0x4000_0000_0000_0000_0000_0000_0000_0000) by (nonlinear_arith)
            requires
                0 < d < 0x40_0000_0000_0000,
                0 < power <= 0x40_0000_0000_0000,
        ;
        assert(n < 0x10_0000_0000_0000 * (d * power)) by (nonlinear_arith)
            requires
                n < 0x20_0000_0000_0000 * d,
                2 <= power,
                0 < d,
        ;
    }
    let wide: u128 = d * power;
    let m: u128 = divide_nearest_even(n, wide);
    proof {
        let (n2, d2) = scaled(num as nat, den as nat, e + k);
        lemma_nearest_even_same_ratio(n2, d2, n as nat, wide as nat);
        lemma_small_significand(n as nat, wide as nat);
    }
    finish(negative, m as u64, MIN_EXPONENT)
}

/// The integer nearest to `num / den`, ties to even.
fn divide_nearest_even(num: u128, den: u128) -> (result: u128)
    requires
        0 < den < 0x4000_0000_0000_0000_0000_0000_0000_0000,
    ensures
        result == nearest_even(num as nat, den as nat),
{
    let q: u128 = num / den;
    let r: u128 = num % den;
    if 2 * r < den || (2 * r == den && q % 2 == 0) {
        q
    } else {
        proof {
            vstd::arithmetic::div_mod::lemma_fundamental_div_mod(num as int, den as int);
            assert(q < u128::MAX) by (nonlinear_arith)
                requires
                    num == den * q + r,
                    r > 0,
                    den > 0,
                    num <= u128::MAX,
            ;
        }
        q + 1
    }
}

/// The pattern of a rounded significand.
fn finish(negative: bool, mantissa: u64, exponent: i32) -> (result: Float)
    requires
        mantissa <= SIGNIFICAND_END,
        MIN_EXPONENT <= exponent <= 10000,
        mantissa >= HIDDEN_BIT || exponent == MIN_EXPONENT,
    ensures
        result@ == normal(negative, mantissa as nat, exponent as int),
{
    let carried: bool = mantissa == SIGNIFICAND_END;
    let m: u64 = if carried {
        HIDDEN_BIT
    } else {
        mantissa
    };
    let e: i32 = if carried {
        exponent + 1
    } else {
        exponent
    };
    if e > MAX_EXPONENT {
        infinite(negative)
    } else {
        pack(negative, m, e)
    }
}

/// The pattern of `mantissa * 2^exponent`.
fn pack(negative: bool, mantissa: u64, exponent: i32) -> (result: Float)
    requires
        mantissa < SIGNIFICAND_END,
        MIN_EXPONENT <= exponent <= MAX_EXPONENT,
        mantissa >= HIDDEN_BIT || exponent == MIN_EXPONENT,
    ensures
        result@ == (Binary::Finite {
            negative,
            mantissa: mantissa as nat,
            exponent: exponent as int,
        }),
{
    let sign: u64 = if negative {
        0x8000_0000_0000_0000
    } else {
        0
    };
    if mantissa < HIDDEN_BIT {
        Float { bits: sign + mantissa }
    } else {
        let biased: u64 = (exponent + 1075) as u64;
        Float { bits: sign + biased * HIDDEN_BIT + (mantissa - HIDDEN_BIT) }
    }
}

fn infinite(negative: bool) -> (result: Float)
    ensures
        result@ == (Binary::Infinite { negative }),
{
    if negative {
        Float { bits: 0xFFF0_0000_0000_0000 }
    } else {
        Float { bits: 0x7FF0_0000_0000_0000 }
    }
}

fn nan() -> (result: Float)
    ensures
        result@ == Binary::Nan,
{
    Float { bits: 0x7FF8_0000_0000_0000 }
}

/// How the fraction of a magnitude is disposed of.
#[derive(Clone, Copy, PartialEq, Eq, Structural)]
enum Mode {
    Floor,
    Round,
    Ceil,
}

spec fn magnitude(mode: Mode, mantissa: nat, exponent: int) -> nat {
    match mode {
        Mode::Floor => floor_magnitude(mantissa, exponent),
        Mode::Round => round_magnitude(mantissa, exponent),
        Mode::Ceil => ceil_magnitude(mantissa, exponent),
    }
}

/// `mantissa * 2^exponent` as an integer, or the largest `u64` where it is
/// beyond that.
fn saturating_magnitude(mode: Mode, mantissa: u64, exponent: i32) -> (result: u64)
    requires
        mantissa < SIGNIFICAND_END,
        MIN_EXPONENT <= exponent <= MAX_EXPONENT,
    ensures
        result == clamped(
            magnitude(mode, mantissa as nat, exponent as int) as int,
            0,
            u64::MAX as int,
        ),
{
    proof {
        lemma2_to64();
        lemma2_to64_rest();
    }
    if exponent >= 0 {
        if mantissa == 0 {
            assert(0 * pow2(exponent as nat) == 0);
            return 0;
        }
        if exponent >= 64 {
            proof {
                lemma_pow2_increases(64, exponent as nat);
                assert(mantissa * pow2(exponent as nat) > u64::MAX) by (nonlinear_arith)
                    requires
                        mantissa >= 1,
                        pow2(exponent as nat) > u64::MAX,
                ;
            }
            return u64::MAX;
        }
        let power: u128 = power_of_two(exponent as u32);
        proof {
            lemma_pow2_increases(exponent as nat, 64);
            assert(mantissa * power < 0x4000_0000_0000_0000_0000_0000_0000_0000)
                by (nonlinear_arith)
                requires
                    mantissa < 0x20_0000_0000_0000,
                    power <= 0x1_0000_0000_0000_0000,
            ;
        }
        let value: u128 = (mantissa as u128) * power;
        if value > u64::MAX as u128 {
            u64::MAX
        } else {
            value as u64
        }
    } else {
        let k: u32 = (-exponent) as u32;
        if k >= 54 {
            proof {
                let p = pow2(k as nat) as int;
                lemma_pow2_increases(54, k as nat);
                vstd::arithmetic::div_mod::lemma_fundamental_div_mod_converse(
                    mantissa as int,
                    p,
                    0,
                    mantissa as int,
                );
                vstd::arithmetic::div_mod::lemma_fundamental_div_mod_converse(
                    2 * mantissa + p,
                    2 * p,
                    0,
                    2 * mantissa + p,
                );
                if mantissa == 0 {
                    vstd::arithmetic::div_mod::lemma_fundamental_div_mod_converse(
                        p - 1,
                        p,
                        0,
                        p - 1,
                    );
                } else {
                    vstd::arithmetic::div_mod::lemma_fundamental_div_mod_converse(
                        mantissa + p - 1,
                        p,
                        1,
                        mantissa - 1,
                    );
                }
            }
            return if mode == Mode::Ceil && mantissa > 0 {
                1
            } else {
                0
            };
        }
        let power: u64 = power_of_two(k) as u64;
        proof {
            lemma_pow2_increases(k as nat, 53);
            lemma_pow2_pos(k as nat);
            assert(2 * power > 0);
            let (q, d) = (2 * mantissa + power, 2 * power as int);
            assert(q / d <= q) by (nonlinear_arith)
                requires
                    q >= 0,
                    d >= 1,
            ;
            assert((mantissa + power - 1) / (power as int) <= mantissa + power - 1)
                by (nonlinear_arith)
                requires
                    mantissa + power - 1 >= 0,
                    power >= 1,
            ;
            assert(mantissa as int / (power as int) <= mantissa) by (nonlinear_arith)
                requires
                    mantissa >= 0,
                    power >= 1,
            ;
        }
        match mode {
            Mode::Floor => mantissa / power,
            Mode::Round => (2 * mantissa + power) / (2 * power),
            Mode::Ceil => (mantissa + power - 1) / power,
        }
    }
}

impl Float {
    fn fields(self) -> (fields: Fields)
        ensures
            fields.matches(self@),
    {
        let negative: bool = self.bits / 0x8000_0000_0000_0000 == 1;
        let biased: u64 = (self.bits / 0x10_0000_0000_0000) % 2048;
        let fraction: u64 = self.bits % 0x10_0000_0000_0000;
        if biased == 2047 {
            if fraction == 0 {
                Fields::Infinite { negative }
            } else {
                Fields::Nan
            }
        } else if biased == 0 {
            Fields::Finite { negative, mantissa: fraction, exponent: MIN_EXPONENT }
        } else {
            Fields::Finite {
                negative,
                mantissa: HIDDEN_BIT + fraction,
                exponent: biased as i32 - 1075,
            }
        }
    }

    /// The double with this IEEE 754 bit pattern.
    pub fn from_bits(bits: u64) -> (result: Float)
        ensures
            result.bits == bits,
            result@ == decode(bits),
    {
        Float { bits }
    }

    /// The double nearest to an unsigned integer.
    pub fn from_u64(value: u64) -> (result: Float)
        ensures
            result@ == from_nat(value as nat),
    {
        round_ratio(false, value as u128, 1, 0)
    }

    /// The double nearest to a signed integer.
    pub fn from_i64(value: i64) -> (result: Float)
        ensures
            result@ == rounded(
                value < 0,
                if value < 0 {
                    -value
                } else {
                    value as int
                } as nat,
                1,
                0,
            ),
    {
        let magnitude: u128 = if value < 0 {
            (-(value as i128)) as u128
        } else {
            value as u128
        };
        round_ratio(value < 0, magnitude, 1, 0)
    }

    /// `self * other`.
    pub fn times(self, other: Float) -> (result: Float)
        ensures
            result@ == product(self@, other@),
    {
        match (self.fields(), other.fields()) {
            (Fields::Nan, _) => nan(),
            (_, Fields::Nan) => nan(),
            (Fields::Infinite { negative: s }, Fields::Infinite { negative: t }) => infinite(
                s != t,
            ),
            (Fields::Infinite { negative: s }, Fields::Finite { negative: t, mantissa, .. }) => {
                if mantissa == 0 {
                    nan()
                } else {
                    infinite(s != t)
                }
            },
            (Fields::Finite { negative: s, mantissa, .. }, Fields::Infinite { negative: t }) => {
                if mantissa == 0 {
                    nan()
                } else {
                    infinite(s != t)
                }
            },
            (
                Fields::Finite { negative: s, mantissa: m, exponent: e },
                Fields::Finite { negative: t, mantissa: n, exponent: f },
            ) => {
                assert(m * n < 0x400_0000_0000_0000_0000_0000_0000) by (nonlinear_arith)
                    requires
                        m < 0x20_0000_0000_0000,
                        n < 0x20_0000_0000_0000,
                ;
                round_ratio(s != t, (m as u128) * (n as u128), 1, e + f)
            },
        }
    }

    /// `self / other`.
    pub fn over(self, other: Float) -> (result: Float)
        ensures
            result@ == quotient(self@, other@),
    {
        match (self.fields(), other.fields()) {
            (Fields::Nan, _) => nan(),
            (_, Fields::Nan) => nan(),
            (Fields::Infinite { .. }, Fields::Infinite { .. }) => nan(),
            (Fields::Infinite { negative: s }, Fields::Finite { negative: t, .. }) => infinite(
                s != t,
            ),
            (Fields::Finite { negative: s, .. }, Fields::Infinite { negative: t }) => pack(
                s != t,
                0,
                MIN_EXPONENT,
            ),
            (
                Fields::Finite { negative: s, mantissa: m, exponent: e },
                Fields::Finite { negative: t, mantissa: n, exponent: f },
            ) => {
                if n == 0 {
                    if m == 0 {
                        nan()
                    } else {
                        infinite(s != t)
                    }
                } else {
                    round_ratio(s != t, m as u128, n as u128, e - f)
                }
            },
        }
    }

    /// Rounds half away from zero and saturates, as `round() as u64` does.
    pub fn round_to_u64(self) -> (result: u64)
        ensures
            result == round_into(self@, 0, u64::MAX as int),
    {
        match self.fields() {
            Fields::Nan => 0,
            Fields::Infinite { negative } => if negative {
                0
            } else {
                u64::MAX
            },
            Fields::Finite { negative, mantissa, exponent } => {
                let magnitude: u64 = saturating_magnitude(Mode::Round, mantissa, exponent);
                if negative {
                    0
                } else {
                    magnitude
                }
            },
        }
    }

    /// Rounds half away from zero and saturates, as `round() as i64` does.
    pub fn round_to_i64(self) -> (result: i64)
        ensures
            result == round_into(self@, i64::MIN as int, i64::MAX as int),
    {
        match self.fields() {
            Fields::Nan => 0,
            Fields::Infinite { negative } => if negative {
                i64::MIN
            } else {
                i64::MAX
            },
            Fields::Finite { negative, mantissa, exponent } => {
                let magnitude: u64 = saturating_magnitude(Mode::Round, mantissa, exponent);
                if negative {
                    if magnitude > 0x7FFF_FFFF_FFFF_FFFF {
                        i64::MIN
                    } else {
                        -(magnitude as i64)
                    }
                } else if magnitude > 0x7FFF_FFFF_FFFF_FFFF {
                    i64::MAX
                } else {
                    magnitude as i64
                }
            },
        }
    }

    /// Rounds half away from zero and saturates, as `round() as usize` does.
    pub fn round_to_usize(self) -> (result: usize)
        ensures
            result == round_into(self@, 0, usize::MAX as int),
    {
        saturating_usize(self.round_to_u64())
    }

    /// Rounds half away from zero and saturates, as `round() as u16` does.
    pub fn round_to_u16(self) -> (result: u16)
        ensures
            result == round_into(self@, 0, u16::MAX as int),
    {
        let wide: u64 = self.round_to_u64();
        if wide > 0xFFFF {
            0xFFFF
        } else {
            wide as u16
        }
    }

    /// Rounds up and saturates, as `ceil() as usize` does.
    pub fn ceil_to_usize(self) -> (result: usize)
        ensures
            result == ceil_into(self@, 0, usize::MAX as int),
    {
        match self.fields() {
            Fields::Nan => 0,
            Fields::Infinite { negative } => if negative {
                0
            } else {
                usize::MAX
            },
            Fields::Finite { negative, mantissa, exponent } => {
                let magnitude: u64 = saturating_magnitude(Mode::Ceil, mantissa, exponent);
                if negative {
                    0
                } else {
                    saturating_usize(magnitude)
                }
            },
        }
    }

    /// Whether the value is a positive number, neither infinite nor NaN.
    pub fn is_positive(self) -> (result: bool)
        ensures
            result == positive(self@),
    {
        match self.fields() {
            Fields::Finite { negative, mantissa, .. } => !negative && mantissa > 0,
            _ => false,
        }
    }

    /// Ten times the value, without its sign, rounded to the nearest integer,
    /// ties to even.
    pub fn tenths(self) -> (result: u128)
        requires
            places_up_to(self@, 65),
        ensures
            result == tenths_of(self@),
    {
        match self.fields() {
            Fields::Finite { mantissa, exponent, .. } => {
                let tenfold: u128 = 10 * mantissa as u128;
                if exponent > 0 {
                    let power: u128 = power_of_two(exponent as u32);
                    proof {
                        lemma2_to64();
                        lemma_pow2_adds(64, 1);
                        lemma_pow2_increases(exponent as nat, 65);
                        assert(tenfold * power <= 0x140_0000_0000_0000 * 0x2_0000_0000_0000_0000)
                            by (nonlinear_arith)
                            requires
                                tenfold <= 0x140_0000_0000_0000,
                                power <= 0x2_0000_0000_0000_0000,
                        ;
                        let n = (10 * mantissa as nat) * pow2(exponent as nat);
                        assert(scaled(10 * mantissa as nat, 1, -(exponent as int)) == (n, 1nat));
                        assert(n / 1 == n && n % 1 == 0);
                        assert(n == tenfold * power);
                    }
                    tenfold * power
                } else if exponent < -64 {
                    proof {
                        let d = pow2((-exponent) as nat);
                        lemma2_to64();
                        lemma_pow2_increases(64, (-exponent) as nat);
                        vstd::arithmetic::div_mod::lemma_basic_div(tenfold as int, d as int);
                        vstd::arithmetic::div_mod::lemma_small_mod(tenfold as nat, d);
                        assert(1 * d == d);
                    }
                    0
                } else {
                    let power: u128 = power_of_two((-exponent) as u32);
                    proof {
                        lemma2_to64();
                        lemma_pow2_increases((-exponent) as nat, 64);
                        lemma_pow2_pos((-exponent) as nat);
                        assert(1 * pow2((-exponent) as nat) == pow2((-exponent) as nat));
                    }
                    divide_nearest_even(tenfold, power)
                }
            },
            _ => 0,
        }
    }

    /// Drops the fraction and saturates, as `as usize` does.
    pub fn trunc_to_usize(self) -> (result: usize)
        ensures
            result == trunc_into(self@, 0, usize::MAX as int),
    {
        match self.fields() {
            Fields::Nan => 0,
            Fields::Infinite { negative } => if negative {
                0
            } else {
                usize::MAX
            },
            Fields::Finite { negative, mantissa, exponent } => {
                let magnitude: u64 = saturating_magnitude(Mode::Floor, mantissa, exponent);
                if negative {
                    0
                } else {
                    saturating_usize(magnitude)
                }
            },
        }
    }
}

fn saturating_usize(value: u64) -> (result: usize)
    ensures
        result == clamped(value as int, 0, usize::MAX as int),
{
    if value > usize::MAX as u64 {
        usize::MAX
    } else {
        value as usize
    }
}

} // verus!
