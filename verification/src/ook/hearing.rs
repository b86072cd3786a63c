//! What a detector promises of any stream.

use vstd::prelude::*;

use crate::ook::detector;
use crate::ook::detector::{DetectorConfig, Heard, Listening};
use crate::ook::envelope;
use crate::ook::round_trip;
use crate::ook::streaming;

verus! {

/// Hearing goes on where it left off.
pub proof fn steps_concat(state: Listening, first: Seq<u16>, second: Seq<u16>)
    ensures
        state.steps(first + second).0 == state.steps(first).0.steps(second).0,
        state.steps(first + second).1 == state.steps(first).1 + state.steps(first).0.steps(
            second,
        ).1,
    decreases second.len(),
{
    let (middle, heard) = state.steps(first);
    if second.len() == 0 {
        assert(first + second =~= first);
        assert(heard + Seq::<Heard>::empty() =~= heard);
    } else {
        let rest = second.drop_last();
        assert((first + second).drop_last() =~= first + rest);
        steps_concat(state, first, rest);
        let (before, more) = middle.steps(rest);
        let last = before.step(second.last()).1;
        assert((heard + more) + last =~= heard + (more + last));
    }
}

/// Runs, glitches and gaps all straddle transfer boundaries in a live stream:
/// feeding the same signal in pieces, each a whole number of samples, does not
/// change what comes out.
pub proof fn chunking_does_not_matter(state: Listening, first: Seq<u8>, second: Seq<u8>)
    requires
        first.len() % 2 == 0,
    ensures
        ({
            let (middle, heard) = state.steps(envelope::magnitudes(first));
            let (last, more) = middle.steps(envelope::magnitudes(second));
            state.steps(envelope::magnitudes(first + second)) == (last, heard + more)
        }),
{
    round_trip::magnitudes_concat(first, second);
    steps_concat(state, envelope::magnitudes(first), envelope::magnitudes(second));
}

/// Until the first window has been measured there is no threshold, and
/// nothing is heard; the sample that completes the window arms it.
pub proof fn deaf_until_measured(config: DetectorConfig, mags: Seq<u16>)
    requires
        mags.len() <= config.window(),
    ensures
        ({
            let (state, heard) = Listening::start(config).steps(mags);
            &&& heard.len() == 0
            &&& state.config == config
            &&& streaming::fresh(state)
            &&& state.run_peak == 0
            &&& state.burst_peak == 0
            &&& state.tail_peak == 0
            &&& state.threshold is Some <==> mags.len() == config.window()
            &&& state.seen == if mags.len() == config.window() {
                0
            } else {
                mags.len()
            }
        }),
    decreases mags.len(),
{
    if mags.len() > 0 {
        deaf_until_measured(config, mags.drop_last());
    }
}

/// Once armed, the threshold stays armed, and above silence.
pub proof fn stays_armed(state: Listening, mags: Seq<u16>)
    requires
        state.threshold is Some,
        state.threshold->0 >= 1,
    ensures
        state.steps(mags).0.threshold is Some,
        state.steps(mags).0.threshold->0 >= 1,
    decreases mags.len(),
{
    if mags.len() > 0 {
        stays_armed(state, mags.drop_last());
        let before = state.steps(mags.drop_last()).0;
        let counted = Listening {
            tally: before.tally.with(mags.last()),
            seen: before.seen + 1,
            ..before
        };
        detector::slicing_keeps_the_window(counted, mags.last(), before.threshold->0);
    }
}

/// Within a window the threshold stands still: what is heard is what slicing
/// at it gives.
pub proof fn a_window_is_sliced(state: Listening, mags: Seq<u16>, threshold: u16)
    requires
        state.threshold == Some(threshold),
        state.seen + mags.len() <= state.config.window_samples,
    ensures
        state.steps(mags).1 == streaming::sliced_all(state, mags, threshold).1,
    decreases mags.len(),
{
    if mags.len() > 0 {
        lemma_same_slices(state, mags.drop_last(), threshold);
        let before = state.steps(mags.drop_last()).0;
        let alike = streaming::sliced_all(state, mags.drop_last(), threshold).0;
        lemma_slices_alike(before, alike, mags.last(), threshold);
    }
}

/// Whether two states differ in their windows only.
spec fn alike(a: Listening, b: Listening) -> bool {
    a == (Listening { tally: a.tally, seen: a.seen, ..b })
}

proof fn lemma_slices_alike(a: Listening, b: Listening, magnitude: u16, threshold: u16)
    requires
        alike(a, b),
        a.threshold == Some(threshold),
    ensures
        a.step(magnitude).1 == b.sliced(magnitude, threshold).1,
        a.seen + 1 < a.config.window_samples ==> alike(
            a.step(magnitude).0,
            b.sliced(magnitude, threshold).0,
        ) && a.step(magnitude).0.seen == a.seen + 1,
{
    let counted = Listening { tally: a.tally.with(magnitude), seen: a.seen + 1, ..a };
    lemma_sliced_alike(counted, b, magnitude, threshold);
}

proof fn lemma_sliced_alike(a: Listening, b: Listening, magnitude: u16, threshold: u16)
    requires
        alike(a, b),
    ensures
        alike(a.sliced(magnitude, threshold).0, b.sliced(magnitude, threshold).0),
        a.sliced(magnitude, threshold).1 == b.sliced(magnitude, threshold).1,
        a.sliced(magnitude, threshold).0.seen == a.seen,
{
    reveal(Listening::sliced);
    let (c, _) = a.extended(magnitude, threshold);
    let (d, _) = b.extended(magnitude, threshold);
    assert(alike(c, d));
    match c.pending {
        Some(run) => {
            let e = Listening { pending: None, pending_peak: 0, ..c }.given(run, c.pending_peak).0;
            let f = Listening { pending: None, pending_peak: 0, ..d }.given(run, d.pending_peak).0;
            assert(alike(e, f));
            assert(alike(e.ended().0, f.ended().0));
        },
        None => {
            assert(alike(c.ended().0, d.ended().0));
        },
    }
}

proof fn lemma_same_slices(state: Listening, mags: Seq<u16>, threshold: u16)
    requires
        state.threshold == Some(threshold),
        state.seen + mags.len() < state.config.window_samples,
    ensures
        alike(state.steps(mags).0, streaming::sliced_all(state, mags, threshold).0),
        state.steps(mags).1 == streaming::sliced_all(state, mags, threshold).1,
        state.steps(mags).0.seen == state.seen + mags.len(),
        state.steps(mags).0.threshold == Some(threshold),
        state.steps(mags).0.config == state.config,
    decreases mags.len(),
{
    if mags.len() > 0 {
        lemma_same_slices(state, mags.drop_last(), threshold);
        let before = state.steps(mags.drop_last()).0;
        let other = streaming::sliced_all(state, mags.drop_last(), threshold).0;
        lemma_slices_alike(before, other, mags.last(), threshold);
        detector::slicing_keeps_the_window(other, mags.last(), threshold);
    }
}

/// The threshold is the higher of the level that the noise spread supports
/// and the one sliced between noise and signal, and never zero.
pub proof fn threshold_is_the_higher(config: DetectorConfig, tally: crate::ook::histogram::Tally)
    ensures
        config.threshold(tally) >= 1,
        config.threshold(tally) >= config.robust_floor(tally),
        config.threshold(tally) >= tally.sliced(config.threshold_fraction@),
        config.threshold(tally) == 1 || config.threshold(tally) == config.robust_floor(tally)
            || config.threshold(tally) == tally.sliced(config.threshold_fraction@),
{
}

/// A silence that outruns the gap delivers the burst at once, without waiting
/// for the carrier to return.
pub proof fn the_gap_delivers(state: Listening, magnitude: u16, threshold: u16)
    requires
        state.extended(magnitude, threshold).0.gap_reached(),
    ensures
        ({
            let (next, heard) = state.extended(magnitude, threshold);
            let (after, all) = state.sliced(magnitude, threshold);
            let last = match next.pending {
                Some(run) => next.gathering.after(run),
                None => next.gathering,
            };
            &&& after.pending is None
            &&& after.gathering.current.len() == 0
            &&& last.closed() matches Some(timings) ==> all.len() > 0 && all.last().timings
                == timings
        }),
{
    reveal(Listening::sliced);
    let (next, heard) = state.extended(magnitude, threshold);
    let (handed, first) = match next.pending {
        Some(run) => Listening { pending: None, pending_peak: 0, ..next }.given(
            run,
            next.pending_peak,
        ),
        None => (next, Seq::empty()),
    };
    let (closed, second) = handed.ended();
    let all = state.sliced(magnitude, threshold).1;
    assert(all == heard + (first + second));
    match handed.gathering.closed() {
        Some(timings) => {
            assert(second.len() == 1 && second[0].timings == timings);
            assert(all.last() == second[0]);
        },
        None => {},
    }
}

} // verus!
