//! Amplitude statistics, used to place the slicing threshold.

use vstd::prelude::*;

use crate::float;
use crate::float::{Binary, Float};
use crate::ook::envelope;

verus! {

/// |I| + |Q| is at most 128 + 128; index 0..=257 covers every value.
pub const MAG_LEVELS: usize = 258;

/// One half, as a double.
pub const HALF_BITS: u64 = 0x3FE0_0000_0000_0000;

/// Three quarters, as a double.
pub const THREE_QUARTERS_BITS: u64 = 0x3FE8_0000_0000_0000;

/// The double nearest to 0.999.
pub const NEARLY_ALL_BITS: u64 = 0x3FEF_F7CE_D916_872B;

/// Amplitude statistics of a capture, used to place the slicing threshold.
#[derive(Debug, Clone, Copy)]
pub struct Levels {
    pub noise_floor: u16,
    pub signal: u16,
    pub threshold: u16,
}

/// Streaming amplitude statistics, so a long capture never has to be held in
/// memory to be characterised.
#[derive(Clone)]
pub struct AmplitudeHistogram {
    counts: [usize; 258],
    total: usize,
    peak: u16,
}

/// What a histogram knows: how many magnitudes fell on each level, and the
/// largest of them.
pub struct Tally {
    pub counts: Seq<nat>,
    pub peak: u16,
}

/// The level a magnitude is counted under; the last one takes the excess.
pub open spec fn level(magnitude: u16) -> int {
    if magnitude < MAG_LEVELS {
        magnitude as int
    } else {
        MAG_LEVELS - 1
    }
}

/// How many magnitudes are counted under `value`.
pub open spec fn occurrences(mags: Seq<u16>, value: int) -> nat
    decreases mags.len(),
{
    if mags.len() == 0 {
        0
    } else {
        occurrences(mags.drop_last(), value) + if level(mags.last()) == value {
            1nat
        } else {
            0
        }
    }
}

/// The tally of some magnitudes.
pub open spec fn tally(mags: Seq<u16>) -> Tally {
    Tally {
        counts: Seq::new(MAG_LEVELS as nat, |value: int| occurrences(mags, value)),
        peak: envelope::largest(mags),
    }
}

/// How many magnitudes are counted under the first `end` levels.
pub open spec fn below(counts: Seq<nat>, end: int) -> nat
    decreases end,
{
    if end <= 0 {
        0
    } else {
        below(counts, end - 1) + counts[end - 1]
    }
}

/// The least level, from `start` on, at or below which there are `target`
/// magnitudes.
pub open spec fn quantile_from(counts: Seq<nat>, target: int, start: int) -> int
    decreases MAG_LEVELS - start,
{
    if start >= MAG_LEVELS - 1 {
        MAG_LEVELS - 1
    } else if below(counts, start + 1) >= target {
        start
    } else {
        quantile_from(counts, target, start + 1)
    }
}

impl Tally {
    /// Nothing counted yet.
    pub open spec fn empty() -> Tally {
        Tally { counts: Seq::new(MAG_LEVELS as nat, |value: int| 0nat), peak: 0 }
    }

    /// One magnitude more.
    pub open spec fn with(self, magnitude: u16) -> Tally {
        Tally {
            counts: self.counts.update(level(magnitude), self.counts[level(magnitude)] + 1),
            peak: if magnitude > self.peak {
                magnitude
            } else {
                self.peak
            },
        }
    }

    /// Some magnitudes more, one after the other.
    pub open spec fn with_all(self, mags: Seq<u16>) -> Tally
        decreases mags.len(),
    {
        if mags.len() == 0 {
            self
        } else {
            self.with_all(mags.drop_last()).with(mags.last())
        }
    }

    /// How many magnitudes were counted.
    pub open spec fn total(self) -> nat {
        below(self.counts, MAG_LEVELS as int)
    }

    /// How many magnitudes the quantile `p` asks for.
    pub open spec fn target(self, p: Binary) -> int {
        float::ceil_into(float::product(float::from_nat(self.total()), p), 0, usize::MAX as int)
    }

    /// The least level at or below which a share `p` of the magnitudes lies.
    pub open spec fn percentile(self, p: Binary) -> int {
        if self.total() == 0 {
            0
        } else {
            quantile_from(self.counts, self.target(p), 0)
        }
    }

    /// The median.
    pub open spec fn median(self) -> int {
        self.percentile(float::decode(HALF_BITS))
    }

    /// The 99.9th percentile.
    pub open spec fn high(self) -> int {
        self.percentile(float::decode(NEARLY_ALL_BITS))
    }

    /// The level a fraction of the way from the median to the 99.9th
    /// percentile.
    pub open spec fn sliced(self, fraction: Binary) -> int {
        raised(self.median(), gap(self.median(), self.high()), fraction)
    }

    /// A histogram of so many magnitudes can be held.
    pub open spec fn fits(self, more: nat) -> bool {
        self.total() + more <= usize::MAX
    }
}

/// How far `high` lies above `low`, 0 where it does not.
pub open spec fn gap(low: int, high: int) -> int {
    if high > low {
        high - low
    } else {
        0
    }
}

/// `base` raised by `fraction` of `span`, within what a magnitude can hold.
pub open spec fn raised(base: int, span: int, fraction: Binary) -> int {
    float::clamped(
        base + float::round_into(
            float::product(float::from_nat(span as nat), fraction),
            0,
            u16::MAX as int,
        ),
        0,
        u16::MAX as int,
    )
}

/// Feeding a tally one more magnitude gives the tally of the longer sequence.
pub proof fn tally_push(mags: Seq<u16>, magnitude: u16)
    ensures
        tally(mags.push(magnitude)) == tally(mags).with(magnitude),
{
    assert(mags.push(magnitude).drop_last() == mags);
    assert(tally(mags.push(magnitude)).counts =~= tally(mags).with(magnitude).counts);
}

/// A tally fed in two parts is the tally of the whole.
pub proof fn tally_concat(first: Seq<u16>, second: Seq<u16>)
    ensures
        tally(first + second) == tally(first).with_all(second),
    decreases second.len(),
{
    if second.len() == 0 {
        assert(first + second == first);
    } else {
        tally_concat(first, second.drop_last());
        tally_push(first + second.drop_last(), second.last());
        assert((first + second.drop_last()).push(second.last()) == first + second);
    }
}

/// The tally of no magnitudes is empty.
pub proof fn tally_empty()
    ensures
        tally(Seq::empty()) == Tally::empty(),
{
    assert(tally(Seq::empty()).counts =~= Tally::empty().counts);
}

/// Counting one more raises what is below by one from its level on.
pub(crate) proof fn lemma_below_update(counts: Seq<nat>, at: int, end: int)
    requires
        0 <= at < counts.len(),
        end <= counts.len(),
    ensures
        below(counts.update(at, counts[at] + 1), end) == below(counts, end) + if at < end {
            1int
        } else {
            0
        },
    decreases end,
{
    if end > 0 {
        lemma_below_update(counts, at, end - 1);
    }
}

pub(crate) proof fn lemma_below_zero(end: int)
    requires
        end <= MAG_LEVELS,
    ensures
        below(Tally::empty().counts, end) == 0,
    decreases end,
{
    if end > 0 {
        lemma_below_zero(end - 1);
    }
}

/// More levels hold no fewer magnitudes.
pub proof fn below_grows(counts: Seq<nat>, low: int, high: int)
    requires
        low <= high,
    ensures
        below(counts, low) <= below(counts, high),
    decreases high - low,
{
    if 0 < high && low < high {
        below_grows(counts, low, high - 1);
    }
}

impl View for AmplitudeHistogram {
    type V = Tally;

    closed spec fn view(&self) -> Tally {
        Tally { counts: Seq::new(258, |value: int| self.counts@[value] as nat), peak: self.peak }
    }
}

impl Default for AmplitudeHistogram {
    fn default() -> (result: AmplitudeHistogram)
        ensures
            result@ == Tally::empty(),
            result.wf(),
    {
        AmplitudeHistogram::new()
    }
}

impl AmplitudeHistogram {
    /// The running total is the number of magnitudes counted.
    pub closed spec fn wf(self) -> bool {
        &&& self.total == self@.total()
        &&& self@.counts.len() == MAG_LEVELS
    }

    /// A histogram of nothing.
    pub fn new() -> (result: AmplitudeHistogram)
        ensures
            result@ == Tally::empty(),
            result.wf(),
            result@.total() == 0,
    {
        let result = AmplitudeHistogram { counts: [0usize;258], total: 0, peak: 0 };
        proof {
            lemma_below_zero(MAG_LEVELS as int);
            assert(result@.counts =~= Tally::empty().counts);
        }
        result
    }

    /// Count one sample.
    pub fn add_magnitude(&mut self, magnitude: u16)
        requires
            old(self).wf(),
            old(self)@.fits(1),
        ensures
            final(self).wf(),
            final(self)@ == old(self)@.with(magnitude),
            final(self)@.total() == old(self)@.total() + 1,
    {
        let index: usize = if (magnitude as usize) < MAG_LEVELS {
            magnitude as usize
        } else {
            MAG_LEVELS - 1
        };
        proof {
            lemma_below_update(self@.counts, index as int, MAG_LEVELS as int);
            below_grows(self@.counts, index + 1, MAG_LEVELS as int);
        }
        self.counts[index] = self.counts[index] + 1;
        self.total = self.total + 1;
        if magnitude > self.peak {
            self.peak = magnitude;
        }
        assert(self@.counts =~= old(self)@.with(magnitude).counts);
    }

    /// Accumulate straight from an interleaved cs8 buffer.
    pub fn add_iq(&mut self, iq: &[u8])
        requires
            old(self).wf(),
            old(self)@.fits(iq@.len() / 2),
        ensures
            final(self).wf(),
            final(self)@ == old(self)@.with_all(envelope::magnitudes(iq@)),
            final(self)@.total() == old(self)@.total() + iq@.len() / 2,
    {
        let ghost mags = envelope::magnitudes(iq@);
        let count: usize = iq.len() / envelope::BYTES_PER_SAMPLE;
        for k in 0..count
            invariant
                count == iq@.len() / 2,
                mags == envelope::magnitudes(iq@),
                self.wf(),
                self@ == old(self)@.with_all(mags.take(k as int)),
                self@.total() == old(self)@.total() + k,
                old(self)@.fits(iq@.len() / 2),
        {
            assert(mags.take(k + 1).drop_last() == mags.take(k as int));
            self.add_magnitude(envelope::magnitude_at(iq, k));
        }
        assert(mags.take(count as int) == mags);
    }

    /// The highest magnitude so far.
    pub fn peak(&self) -> (result: u16)
        ensures
            result == self@.peak,
    {
        self.peak
    }

    /// Magnitude at the given quantile of the window.
    pub fn percentile(&self, p: Float) -> (result: u16)
        requires
            self.wf(),
        ensures
            result == self@.percentile(p@),
            result < MAG_LEVELS,
    {
        if self.total == 0 {
            return 0;
        }
        let target: usize = Float::from_u64(self.total as u64).times(p).ceil_to_usize();
        let mut below: usize = 0;
        let mut value: usize = 0;
        while value < MAG_LEVELS - 1
            invariant
                self.wf(),
                self.total > 0,
                target == self@.target(p@),
                value <= MAG_LEVELS - 1,
                below == crate::ook::histogram::below(self@.counts, value as int),
                self@.percentile(p@) == quantile_from(self@.counts, target as int, value as int),
            decreases MAG_LEVELS - value,
        {
            proof {
                below_grows(self@.counts, value + 1, MAG_LEVELS as int);
            }
            below = below + self.counts[value];
            if below >= target {
                return value as u16;
            }
            value = value + 1;
        }
        (MAG_LEVELS - 1) as u16
    }

    /// Derive a slicing threshold from the amplitude distribution.
    ///
    /// The noise floor is the median and the signal level is the 99.9th
    /// percentile. A percentile rather than the raw maximum means that one
    /// stray spike cannot drag the threshold above the signal.
    pub fn levels(&self, frac: Float) -> (result: Levels)
        requires
            self.wf(),
        ensures
            result.noise_floor == self@.median(),
            result.signal == self@.high(),
            result.threshold == self@.sliced(frac@),
    {
        let noise_floor: u16 = self.percentile(Float::from_bits(HALF_BITS));
        let signal: u16 = self.percentile(Float::from_bits(NEARLY_ALL_BITS));
        let span: u16 = signal.saturating_sub(noise_floor);
        let threshold: u16 = raise(noise_floor, span, frac);
        Levels { noise_floor, signal, threshold }
    }
}

/// `base` raised by `fraction` of `span`, saturating.
pub fn raise(base: u16, span: u16, fraction: Float) -> (result: u16)
    ensures
        result == raised(base as int, span as int, fraction@),
{
    base.saturating_add(Float::from_u64(span as u64).times(fraction).round_to_u16())
}

/// Derive a slicing threshold from the amplitudes of a whole capture.
///
/// Taking the median as the noise floor assumes carrier is present for well
/// under half the capture, which holds for short bursts in a multi-second
/// recording. When it does not hold, the noise floor and signal level collapse
/// onto each other, which the caller can detect by comparing the two.
pub fn levels(mag: &[u16], frac: Float) -> (result: Levels)
    ensures
        result.noise_floor == tally(mag@).median(),
        result.signal == tally(mag@).high(),
        result.threshold == tally(mag@).sliced(frac@),
{
    let mut histogram = AmplitudeHistogram::new();
    proof {
        tally_empty();
        assert(mag@.take(0) == Seq::<u16>::empty());
    }
    for k in 0..mag.len()
        invariant
            histogram.wf(),
            histogram@ == tally(mag@.take(k as int)),
            histogram@.total() == k,
    {
        proof {
            tally_push(mag@.take(k as int), mag@[k as int]);
            assert(mag@.take(k + 1) == mag@.take(k as int).push(mag@[k as int]));
        }
        histogram.add_magnitude(mag[k]);
    }
    assert(mag@.take(mag@.len() as int) == mag@);
    histogram.levels(frac)
}

} // verus!
