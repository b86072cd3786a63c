//! Which requests are accepted, and what is said of those that are not.

use vstd::arithmetic::power2::*;
use vstd::prelude::*;

use crate::float;
use crate::float::error;
use crate::float::error::{one, units};
use crate::float::Binary;
use crate::ook::analysis;
use crate::ook::precision;
use crate::text;
use crate::wire;
use crate::wire::{Invalid, Transmit};

verus! {

/// How long some timings last together, marks and spaces alike.
pub open spec fn total_us(timings: Seq<i64>) -> int
    decreases timings.len(),
{
    if timings.len() == 0 {
        0
    } else {
        (if timings[0] < 0 {
            -(timings[0] as int)
        } else {
            timings[0] as int
        }) + total_us(timings.drop_first())
    }
}

proof fn lemma_total(timings: Seq<i64>)
    ensures
        analysis::air_time(timings) == total_us(timings),
    decreases timings.len(),
{
    if timings.len() > 0 {
        let first = timings[0];
        let rest = timings.drop_first();
        lemma_total(rest);
        lemma_air_time_first(timings);
    }
}

proof fn lemma_air_time_first(timings: Seq<i64>)
    requires
        timings.len() > 0,
    ensures
        analysis::air_time(timings) == analysis::span(timings[0]) + analysis::air_time(
            timings.drop_first(),
        ),
    decreases timings.len(),
{
    if timings.len() == 1 {
        assert(timings.drop_last() =~= Seq::<i64>::empty());
        assert(timings.drop_first() =~= Seq::<i64>::empty());
    } else {
        lemma_air_time_first(timings.drop_last());
        assert(timings.drop_first().drop_last() =~= timings.drop_last().drop_first());
    }
}

/// A request holds the band for its timings, as often as they are sent, and the
/// gaps between; and that is what is reported of it, unless it is more than a
/// number can hold.
pub proof fn air_time_is_everything_sent(request: Transmit)
    ensures
        request.on_air() == (request.repeat + 1) * total_us(request.timings@) + request.repeat
            * request.gap_us,
        request.on_air() <= i64::MAX ==> request.reported() == request.on_air(),
        request.on_air() > i64::MAX ==> request.reported() == i64::MAX,
{
    lemma_total(request.timings@);
    let total = total_us(request.timings@);
    assert(total * (request.repeat + 1) == (request.repeat + 1) * total) by (nonlinear_arith);
}

/// A request is accepted exactly where it has between one and 8192 timings,
/// none of them zero, a frequency from 1 MHz to 6 GHz, a gain of 47 dB at the
/// most or none of its own, and thirty seconds of air time at the most.
pub proof fn what_is_accepted(request: Transmit)
    ensures
        request.refusal() is None <==> {
            &&& 1 <= request.timings@.len() <= 8192
            &&& forall|k: int|
                0 <= k < request.timings@.len() ==> #[trigger] request.timings@[k] != 0
            &&& 1_000_000 <= request.frequency <= 6_000_000_000
            &&& request.txvga_db matches Some(gain) ==> gain <= 47
            &&& (request.repeat + 1) * total_us(request.timings@) + request.repeat * request.gap_us
                <= 30_000_000
        },
{
    air_time_is_everything_sent(request);
    let timings = request.timings@;
    if timings.contains(0) {
        let k = choose|k: int| 0 <= k < timings.len() && timings[k] == 0;
        assert(timings[k] == 0);
    }
}

/// A refusal names what is wrong, and what is wrong is so: the number of
/// timings, a timing of zero, the frequency, the gain, or the air time; the
/// earlier of these before the later.
pub proof fn refusals_name_the_fault(request: Transmit)
    ensures
        match request.refusal() {
            None => true,
            Some(Invalid::Empty) => request.timings@.len() == 0,
            Some(Invalid::TooManyTimings { count }) => request.timings@.len() > 8192
                && count == request.timings@.len() as usize,
            Some(Invalid::ZeroTiming) => request.timings@.len() <= 8192 && exists|k: int|
                0 <= k < request.timings@.len() && request.timings@[k] == 0,
            Some(Invalid::FrequencyOutOfRange { frequency }) => request.timings@.len() <= 8192 && (
            forall|k: int| 0 <= k < request.timings@.len() ==> request.timings@[k] != 0)
                && frequency == request.frequency && (frequency < 1_000_000 || frequency
                > 6_000_000_000),
            Some(Invalid::GainTooHigh { txvga_db }) => 1_000_000 <= request.frequency
                <= 6_000_000_000 && request.txvga_db == Some(txvga_db) && txvga_db > 47,
            Some(Invalid::AirTimeTooLong { duration_us }) => request.on_air() > 30_000_000
                && duration_us == request.reported() && (request.txvga_db matches Some(gain)
                ==> gain <= 47),
        },
        request.timings@.len() == 0 ==> request.refusal() == Some(Invalid::Empty),
        request.timings@.len() > 8192 ==> request.refusal() is Some
            && request.refusal()->0 is TooManyTimings,
{
    let timings = request.timings@;
    if timings.contains(0) {
        let k = choose|k: int| 0 <= k < timings.len() && timings[k] == 0;
        assert(timings[k] == 0);
    } else {
        assert forall|k: int| 0 <= k < timings.len() implies timings[k] != 0 by {
            if timings[k] == 0 {
                assert(timings.contains(0));
            }
        }
    }
}

/// The radio tunes from 1 MHz to 6 GHz.
pub proof fn what_is_tunable(frequency: u64)
    ensures
        wire::tunable(frequency) <==> 1_000_000 <= frequency <= 6_000_000_000,
{
}

/// A duration is told in seconds to the nearest tenth.
pub proof fn seconds_are_nearest_tenths(us: nat) -> (tenths: nat)
    requires
        us <= 0x1_0000_0000_0000,
    ensures
        -50_000 <= us - 100_000 * tenths <= 50_000,
        wire::in_seconds(us as int) == text::decimal(tenths / 10) + "."@ + text::decimal(
            tenths % 10,
        ),
{
    let seconds = float::quotient(float::from_nat(us), float::from_nat(1_000_000));
    let tenths = float::tenths_of(seconds);
    assert(wire::in_seconds(us as int) =~= text::decimal(tenths / 10) + "."@ + text::decimal(
        tenths % 10,
    ));
    lemma_pow2_pos(1074);
    if us == 0 {
        error::from_nat_exact(1_000_000);
        let (n, d) = float::scaled(0, 1, 1074);
        lemma_pow2_pos(1074);
        assert(d == 1 * pow2(1074));
        vstd::arithmetic::div_mod::lemma_basic_div(0, d as int);
        vstd::arithmetic::div_mod::lemma_small_mod(0, d);
        assert(tenths == 0);
    } else {
        precision::ratio_near(us, 1_000_000);
        let o = one() as int;
        let u = units(seconds) as int;
        match seconds {
            Binary::Finite { mantissa, exponent, .. } => {
                error::tenths_in_units(mantissa, exponent);
                assert(-50_000 <= us - 100_000 * tenths <= 50_000) by (nonlinear_arith)
                    requires
                        (2 * tenths - 1) * o <= 20 * u,
                        20 * u <= (2 * tenths + 1) * o,
                        0x20_0000_0000_0000 * (u * 1_000_000 - us * o) <= 1 * (us * o),
                        0x20_0000_0000_0000 * (us * o - u * 1_000_000) <= 1 * (us * o),
                        us <= 0x1_0000_0000_0000,
                        o > 0,
                {
                    assert(us * o <= 0x1_0000_0000_0000 * o);
                    assert(20 * (u * 1_000_000 - us * o) < o);
                    assert(20 * (us * o - u * 1_000_000) < o);
                    assert(((2 * tenths - 1) * 1_000_000) * o <= 20 * (u * 1_000_000));
                    assert(20 * (u * 1_000_000) <= ((2 * tenths + 1) * 1_000_000) * o);
                    assert(((2 * tenths - 1) * 1_000_000) * o < (20 * us + 1) * o);
                    assert((20 * us) * o < ((2 * tenths + 1) * 1_000_000 + 1) * o);
                    assert((2 * tenths - 1) * 1_000_000 < 20 * us + 1);
                    assert(20 * us < (2 * tenths + 1) * 1_000_000 + 1);
                }
            },
            _ => {},
        }
    }
    tenths
}

} // verus!
