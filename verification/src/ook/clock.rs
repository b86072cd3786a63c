//! Microseconds and samples.
//!
//! Both directions go through double precision, and each rounds to the
//! nearest integer at the end.

use vstd::prelude::*;

use crate::float;
use crate::float::{Binary, Float};

verus! {

/// How many microseconds one sample lasts.
pub open spec fn us_per_sample(sample_rate: u32) -> Binary {
    float::quotient(float::from_nat(1_000_000), float::from_nat(sample_rate as nat))
}

/// How many samples one microsecond lasts.
pub open spec fn samples_per_us(sample_rate: u32) -> Binary {
    float::quotient(float::from_nat(sample_rate as nat), float::from_nat(1_000_000))
}

/// How long a run of samples lasts, in whole microseconds.
pub open spec fn run_us(samples: nat, sample_rate: u32) -> int {
    float::round_into(
        float::product(float::from_nat(samples), us_per_sample(sample_rate)),
        i64::MIN as int,
        i64::MAX as int,
    )
}

/// The number of samples nearest to a duration, at least one and at most
/// `limit`.
pub open spec fn at_least_one(us: Binary, sample_rate: u32, limit: int) -> int {
    let samples = float::round_into(float::quotient(us, us_per_sample(sample_rate)), 0, limit);
    if samples < 1 {
        1
    } else {
        samples
    }
}

/// The double nearest to a signed duration.
pub open spec fn from_int(us: int) -> Binary {
    float::rounded(
        us < 0,
        if us < 0 {
            -us
        } else {
            us
        } as nat,
        1,
        0,
    )
}

/// The absolute value.
pub open spec fn magnitude(timing: int) -> nat {
    if timing < 0 {
        (-timing) as nat
    } else {
        timing as nat
    }
}

/// How many samples a signed timing is rendered as.
pub open spec fn sample_count(timing: int, sample_rate: u32) -> int {
    float::round_into(
        float::product(float::from_nat(magnitude(timing)), samples_per_us(sample_rate)),
        0,
        usize::MAX as int,
    )
}

/// The sum of two durations, stopping at the longest that can be held.
pub open spec fn extended(us: i64, more: i64) -> i64 {
    float::clamped(us + more, i64::MIN as int, i64::MAX as int) as i64
}

/// A count of samples is one: not negative, and within the machine's range.
pub proof fn sample_count_bounds(timing: int, sample_rate: u32)
    ensures
        0 <= sample_count(timing, sample_rate) <= usize::MAX,
{
}

/// A run never lasts a negative time.
pub proof fn run_us_bounds(samples: nat, sample_rate: u32)
    ensures
        0 <= run_us(samples, sample_rate) <= i64::MAX,
{
}

/// How many microseconds one sample lasts.
pub fn sample_duration(sample_rate: u32) -> (result: Float)
    ensures
        result@ == us_per_sample(sample_rate),
{
    Float::from_u64(1_000_000).over(Float::from_u64(sample_rate as u64))
}

/// How long a run of samples lasts, in whole microseconds.
pub fn run_duration(samples: u64, sample_rate: u32) -> (us: i64)
    ensures
        us == run_us(samples as nat, sample_rate),
{
    Float::from_u64(samples).times(sample_duration(sample_rate)).round_to_i64()
}

/// How many samples a signed timing is rendered as.
pub fn rendered_samples(timing: i64, sample_rate: u32) -> (count: usize)
    ensures
        count == sample_count(timing as int, sample_rate),
{
    let us: u64 = if timing < 0 {
        (-(timing as i128)) as u64
    } else {
        timing as u64
    };
    let rate = Float::from_u64(sample_rate as u64).over(Float::from_u64(1_000_000));
    Float::from_u64(us).times(rate).round_to_usize()
}

/// The sum of two durations, stopping at the longest that can be held.
pub fn extend(us: i64, more: i64) -> (result: i64)
    ensures
        result == extended(us, more),
{
    let sum: i128 = us as i128 + more as i128;
    if sum < i64::MIN as i128 {
        i64::MIN
    } else if sum > i64::MAX as i128 {
        i64::MAX
    } else {
        sum as i64
    }
}

} // verus!
