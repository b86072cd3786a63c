//! Amplitudes of an interleaved I/Q buffer.

use vstd::prelude::*;

verus! {

/// Interleaved i8 I/Q ("cs8"): each complex sample is two bytes.
pub const BYTES_PER_SAMPLE: usize = 2;

/// The absolute value of a byte read as a two's complement number.
pub open spec fn absolute(byte: u8) -> int {
    if byte < 128 {
        byte as int
    } else {
        256 - byte
    }
}

/// The L1 magnitude of one complex sample.
pub open spec fn magnitude_of(i: u8, q: u8) -> int {
    absolute(i) + absolute(q)
}

/// The magnitude of each complete sample of a buffer; a trailing odd byte
/// belongs to none.
pub open spec fn magnitudes(iq: Seq<u8>) -> Seq<u16> {
    Seq::new(iq.len() / 2, |k: int| magnitude_of(iq[2 * k], iq[2 * k + 1]) as u16)
}

/// The largest of some magnitudes, 0 where there are none.
pub open spec fn largest(mags: Seq<u16>) -> u16
    decreases mags.len(),
{
    if mags.len() == 0 {
        0
    } else if mags.last() > largest(mags.drop_last()) {
        mags.last()
    } else {
        largest(mags.drop_last())
    }
}

/// The largest magnitude bounds every magnitude, and is one of them unless
/// there are none.
pub proof fn largest_is_attained(mags: Seq<u16>)
    ensures
        forall|k: int| 0 <= k < mags.len() ==> mags[k] <= largest(mags),
        mags.len() > 0 ==> mags.contains(largest(mags)),
        mags.len() == 0 ==> largest(mags) == 0,
    decreases mags.len(),
{
    if mags.len() > 0 {
        let rest = mags.drop_last();
        largest_is_attained(rest);
        assert forall|k: int| 0 <= k < mags.len() implies mags[k] <= largest(mags) by {
            if k < rest.len() {
                assert(rest[k] == mags[k]);
            }
        }
        if mags.last() > largest(rest) || rest.len() == 0 {
            assert(mags[mags.len() - 1] == largest(mags));
        } else {
            let k = choose|k: int| 0 <= k < rest.len() && rest[k] == largest(rest);
            assert(mags[k] == largest(mags));
        }
    }
}

fn absolute_value(byte: u8) -> (result: u16)
    ensures
        result == absolute(byte),
{
    if byte < 128 {
        byte as u16
    } else {
        256 - byte as u16
    }
}

/// The L1 magnitude (|I| + |Q|) of the sample at this index.
pub fn magnitude_at(iq: &[u8], index: usize) -> (result: u16)
    requires
        index < iq@.len() / 2,
    ensures
        result == magnitudes(iq@)[index as int],
        result <= 256,
{
    assert(iq@.len() == iq.len());
    absolute_value(iq[2 * index]) + absolute_value(iq[2 * index + 1])
}

/// L1 magnitude envelope (|I| + |Q|) of an interleaved cs8 buffer.
///
/// L1 rather than the Euclidean norm because OOK only needs a monotone
/// function of amplitude, and this keeps the demodulator integer-only.
pub fn envelope(iq: &[u8]) -> (result: Vec<u16>)
    ensures
        result@ == magnitudes(iq@),
{
    let mut result: Vec<u16> = Vec::new();
    let count: usize = iq.len() / BYTES_PER_SAMPLE;
    for k in 0..count
        invariant
            count == iq@.len() / 2,
            result@ == magnitudes(iq@).take(k as int),
    {
        result.push(magnitude_at(iq, k));
    }
    result
}

/// Peak magnitude of a raw cs8 buffer, without materializing an envelope.
pub fn peak_magnitude(iq: &[u8]) -> (result: u16)
    ensures
        result == largest(magnitudes(iq@)),
{
    let mut peak: u16 = 0;
    let count: usize = iq.len() / BYTES_PER_SAMPLE;
    for k in 0..count
        invariant
            count == iq@.len() / 2,
            peak == largest(magnitudes(iq@).take(k as int)),
    {
        let magnitude: u16 = magnitude_at(iq, k);
        assert(magnitudes(iq@).take(k + 1).drop_last() == magnitudes(iq@).take(k as int));
        if magnitude > peak {
            peak = magnitude;
        }
    }
    assert(magnitudes(iq@).take(count as int) == magnitudes(iq@));
    peak
}

} // verus!
