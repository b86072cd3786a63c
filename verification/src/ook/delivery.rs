//! When a live burst is delivered.

use vstd::prelude::*;

use crate::ook::detector;
use crate::ook::detector::Listening;
use crate::ook::streaming;

verus! {

/// Whether some samples are all below a threshold.
pub open spec fn silent(mags: Seq<u16>, threshold: u16) -> bool {
    forall|k: int| 0 <= k < mags.len() ==> #[trigger] mags[k] < threshold
}

/// As long as the silence after a mark is shorter than the gap, the mark waits:
/// the burst may go on.
pub proof fn bursts_wait_for_the_gap(state: Listening, silence: Seq<u16>, threshold: u16)
    requires
        state.on,
        silent(silence, threshold),
        0 < silence.len() < state.config.gap_samples(),
    ensures
        ({
            let (after, heard) = streaming::sliced_all(state, silence, threshold);
            &&& !after.on
            &&& after.run_samples == silence.len()
            &&& after.pending == state.completed().0.pending
            &&& after.pending is Some
            &&& after.gathering == state.completed().0.gathering
            &&& after.config == state.config
            &&& heard == state.completed().1
        }),
    decreases silence.len(),
{
    reveal(Listening::sliced);
    let rest = silence.drop_last();
    let last = silence.len() - 1;
    assert(silence[last] < threshold);
    assert(state.config.gap_samples() <= u64::MAX);
    let (before, heard) = streaming::sliced_all(state, rest, threshold);
    let (next, more) = before.extended(silence.last(), threshold);
    let completed = state.completed();
    if rest.len() == 0 {
        assert(before == state && heard == Seq::<detector::Heard>::empty());
        assert(more == completed.1);
        assert(next.run_samples == 1 && next.pending == completed.0.pending);
        assert(heard + more =~= completed.1);
    } else {
        assert(silent(rest, threshold)) by {
            assert forall|k: int| 0 <= k < rest.len() implies #[trigger] rest[k] < threshold by {
                assert(rest[k] == silence[k]);
            }
        }
        bursts_wait_for_the_gap(state, rest, threshold);
        assert(before.run_samples == rest.len());
        assert(more == Seq::<detector::Heard>::empty());
        assert(heard + more =~= completed.1);
    }
    assert(next.config == state.config);
    assert(next.run_samples == silence.len());
    assert(!next.gap_reached());
    assert(before.sliced(silence.last(), threshold) == (next, more));
    assert(streaming::sliced_all(state, silence, threshold) == (next, heard + more));
}

/// A silence as long as the gap delivers the burst, with the sample that makes
/// it so: nothing is held back then, and nothing is in progress, and what had
/// edges enough has been told.
pub proof fn the_gap_delivers_at_once(state: Listening, silence: Seq<u16>, threshold: u16)
    requires
        state.on,
        silent(silence, threshold),
        silence.len() == state.config.gap_samples(),
    ensures
        ({
            let (after, heard) = streaming::sliced_all(state, silence, threshold);
            let (completed, first) = state.completed();
            let gathered = completed.gathering.after(completed.pending->0);
            &&& completed.pending is Some
            &&& after.pending is None
            &&& after.gathering.current.len() == 0
            &&& gathered.closed() matches Some(timings) ==> heard.len() > 0
                && heard.last().timings == timings
        }),
{
    reveal(Listening::sliced);
    let rest = silence.drop_last();
    let last = silence.len() - 1;
    assert(silence[last] < threshold);
    let (completed, first) = state.completed();
    let (before, heard) = streaming::sliced_all(state, rest, threshold);
    let (next, more) = before.extended(silence.last(), threshold);
    if rest.len() == 0 {
        assert(rest =~= Seq::<u16>::empty());
    } else {
        assert(silent(rest, threshold)) by {
            assert forall|k: int| 0 <= k < rest.len() implies #[trigger] rest[k] < threshold by {
                assert(rest[k] == silence[k]);
            }
        }
        bursts_wait_for_the_gap(state, rest, threshold);
    }
    assert(next.gap_reached());
    assert(next.gathering == completed.gathering && next.pending == completed.pending);
    crate::ook::hearing::the_gap_delivers(before, silence.last(), threshold);
    let all = before.sliced(silence.last(), threshold).1;
    assert(all.len() > 0 ==> (heard + all).last() == all.last());
}

} // verus!
