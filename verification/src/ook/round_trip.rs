//! What is sent is what is measured.

use vstd::prelude::*;

use crate::ook::bursts;
use crate::ook::clock;
use crate::ook::envelope;
use crate::ook::precision;
use crate::ook::runs;
use crate::ook::runs::Run;
use crate::ook::synthesis;

verus! {

/// Marks and spaces take turns, and each lasts.
pub open spec fn takes_turns(timings: Seq<i64>) -> bool {
    &&& forall|k: int| 0 <= k < timings.len() ==> #[trigger] timings[k] != 0
    &&& forall|k: int|
        #![trigger timings[k]]
        1 <= k < timings.len() ==> (timings[k] > 0) != (timings[k - 1] > 0)
}

/// Runs as signed timings.
pub open spec fn signed_timings(runs: Seq<Run>) -> Seq<i64> {
    runs.map_values(|run: Run| bursts::signed(run))
}

/// The carrier of timings, rendered and sliced.
pub open spec fn carrier(
    timings: Seq<i64>,
    sample_rate: u32,
    amplitude: i8,
    threshold: u16,
) -> Seq<bool> {
    runs::slice(
        envelope::magnitudes(synthesis::rendered(timings, sample_rate, amplitude)),
        threshold,
    )
}

/// The stretch that a timing is rendered as.
pub open spec fn stretch_of(timing: i64, sample_rate: u32) -> (bool, nat) {
    (timing > 0, clock::sample_count(timing as int, sample_rate) as nat)
}

/// The stretches that timings are rendered as.
pub open spec fn stretches_of(timings: Seq<i64>, sample_rate: u32) -> Seq<(bool, nat)> {
    timings.map_values(|timing: i64| stretch_of(timing, sample_rate))
}

/// The samples of two buffers after each other.
pub proof fn magnitudes_concat(first: Seq<u8>, second: Seq<u8>)
    requires
        first.len() % 2 == 0,
    ensures
        envelope::magnitudes(first + second) == envelope::magnitudes(first)
            + envelope::magnitudes(second),
{
    let whole = envelope::magnitudes(first + second);
    let parts = envelope::magnitudes(first) + envelope::magnitudes(second);
    assert(whole.len() == parts.len());
    assert forall|k: int| 0 <= k < whole.len() implies whole[k] == parts[k] by {
        if k < first.len() / 2 {
            assert((first + second)[2 * k] == first[2 * k]);
            assert((first + second)[2 * k + 1] == first[2 * k + 1]);
        } else {
            let j = k - first.len() / 2;
            assert((first + second)[2 * k] == second[2 * j]);
            assert((first + second)[2 * k + 1] == second[2 * j + 1]);
        }
    }
    assert(whole =~= parts);
}

/// The last stretch is what the last sample belongs to.
pub proof fn last_stretch(carrier: Seq<bool>)
    ensures
        carrier.len() == 0 <==> runs::stretches(carrier).len() == 0,
        carrier.len() > 0 ==> runs::stretches(carrier).last().0 == carrier.last(),
        carrier.len() > 0 ==> runs::stretches(carrier).last().1 > 0,
    decreases carrier.len(),
{
    if carrier.len() > 0 {
        last_stretch(carrier.drop_last());
    }
}

/// Equal samples after a change make one stretch.
pub proof fn stretch_appended(before: Seq<bool>, on: bool, count: nat)
    requires
        count > 0,
        before.len() == 0 || before.last() != on,
    ensures
        runs::stretches(before + Seq::new(count, |k: int| on)) == runs::stretches(before).push(
            (on, count),
        ),
    decreases count,
{
    let all = before + Seq::new(count, |k: int| on);
    last_stretch(before);
    if count == 1 {
        assert(all.drop_last() == before);
    } else {
        let fewer = before + Seq::new((count - 1) as nat, |k: int| on);
        assert(all.drop_last() =~= fewer);
        stretch_appended(before, on, (count - 1) as nat);
        assert(runs::stretches(before).push((on, (count - 1) as nat)).drop_last()
            =~= runs::stretches(before));
    }
}

/// A timing takes no more samples than the list it is in.
pub proof fn count_in_total(timings: Seq<i64>, index: int, sample_rate: u32)
    requires
        0 <= index < timings.len(),
    ensures
        clock::sample_count(timings[index] as int, sample_rate) <= synthesis::total_samples(
            timings,
            sample_rate,
        ),
    decreases timings.len(),
{
    if index < timings.len() - 1 {
        count_in_total(timings.drop_last(), index, sample_rate);
    }
    clock::sample_count_bounds(timings.last() as int, sample_rate);
}

/// A tone's samples all lie on the same side of the threshold.
proof fn lemma_tone(timing: i64, amplitude: i8, threshold: u16, count: nat)
    requires
        1 <= threshold <= clock::magnitude(amplitude as int),
    ensures
        runs::slice(
            envelope::magnitudes(
                synthesis::tone(synthesis::level_of(timing, amplitude), count),
            ),
            threshold,
        ) == Seq::new(count, |k: int| timing > 0),
{
    let tone = synthesis::tone(synthesis::level_of(timing, amplitude), count);
    let mags = envelope::magnitudes(tone);
    assert forall|k: int| 0 <= k < count implies (mags[k] >= threshold) == (timing > 0) by {
        assert(tone[2 * k] == synthesis::level_of(timing, amplitude));
        assert(tone[2 * k + 1] == 0);
    }
    assert(runs::slice(mags, threshold) =~= Seq::new(count, |k: int| timing > 0));
}

/// Timings that take turns are sliced into one stretch each.
pub proof fn rendered_stretches(
    timings: Seq<i64>,
    sample_rate: u32,
    amplitude: i8,
    threshold: u16,
)
    requires
        takes_turns(timings),
        forall|k: int|
            0 <= k < timings.len() ==> stretch_of(#[trigger] timings[k], sample_rate).1 > 0,
        1 <= threshold <= clock::magnitude(amplitude as int),
    ensures
        runs::stretches(carrier(timings, sample_rate, amplitude, threshold)) == stretches_of(
            timings,
            sample_rate,
        ),
        timings.len() == 0 ==> carrier(timings, sample_rate, amplitude, threshold).len() == 0,
        timings.len() > 0 ==> carrier(timings, sample_rate, amplitude, threshold).len() > 0
            && carrier(timings, sample_rate, amplitude, threshold).last() == (timings.last() > 0),
    decreases timings.len(),
{
    let all = carrier(timings, sample_rate, amplitude, threshold);
    if timings.len() == 0 {
        assert(runs::stretches(all) =~= stretches_of(timings, sample_rate));
    } else {
        let rest = timings.drop_last();
        let before = carrier(rest, sample_rate, amplitude, threshold);
        let timing = timings.last();
        let count = stretch_of(timing, sample_rate).1;
        assert forall|k: int| 0 <= k < rest.len() implies #[trigger] rest[k] == timings[k] by {}
        rendered_stretches(rest, sample_rate, amplitude, threshold);
        assert(stretch_of(timings[timings.len() - 1], sample_rate).1 > 0);
        synthesis::rendered_length(rest, sample_rate, amplitude);
        let head = synthesis::rendered(rest, sample_rate, amplitude);
        let tail = synthesis::tone(synthesis::level_of(timing, amplitude), count);
        magnitudes_concat(head, tail);
        lemma_tone(timing, amplitude, threshold, count);
        assert(all =~= before + Seq::new(count, |k: int| timing > 0));
        if rest.len() > 0 {
            assert(timings[timings.len() - 1] == timing);
            assert(rest.last() == timings[timings.len() - 2]);
        }
        stretch_appended(before, timing > 0, count);
        assert(stretches_of(timings, sample_rate) =~= stretches_of(rest, sample_rate).push(
            (timing > 0, count),
        ));
    }
}

/// Stretches that take turns, none of them a glitch, are one run each.
pub proof fn turns_are_runs(timings: Seq<i64>, min_samples: int, sample_rate: u32)
    requires
        takes_turns(timings),
        forall|k: int|
            1 <= k < timings.len() ==> stretch_of(#[trigger] timings[k], sample_rate).1
                >= min_samples,
    ensures
        ({
            let runs = runs::folded(stretches_of(timings, sample_rate), min_samples, sample_rate);
            &&& runs.len() == timings.len()
            &&& forall|k: int|
                #![trigger timings[k]]
                #![trigger runs[k]]
                0 <= k < timings.len() ==> runs[k] == (Run {
                    on: timings[k] > 0,
                    us: clock::run_us(
                        stretch_of(timings[k], sample_rate).1,
                        sample_rate,
                    ) as i64,
                })
        }),
    decreases timings.len(),
{
    if timings.len() > 0 {
        let rest = timings.drop_last();
        assert forall|k: int| 0 <= k < rest.len() implies #[trigger] rest[k] == timings[k] by {}
        turns_are_runs(rest, min_samples, sample_rate);
        let stretches = stretches_of(timings, sample_rate);
        assert(stretches.drop_last() =~= stretches_of(rest, sample_rate));
        let before = runs::folded(stretches_of(rest, sample_rate), min_samples, sample_rate);
        let last = timings.len() - 1;
        if rest.len() > 0 {
            assert(timings[last] == timings.last());
            assert(stretch_of(timings[last], sample_rate).1 >= min_samples);
            assert(before.last() == before[rest.len() - 1]);
            assert(rest[rest.len() - 1] == timings[last - 1]);
        }
        let after = runs::folded(stretches, min_samples, sample_rate);
        assert forall|k: int| 0 <= k < timings.len() implies after[k] == (Run {
            on: timings[k] > 0,
            us: clock::run_us(stretch_of(timings[k], sample_rate).1, sample_rate) as i64,
        }) by {
            if k < rest.len() {
                assert(rest[k] == timings[k]);
                assert(after[k] == before[k]);
            }
        }
    }
}

/// Timings survive being synthesized and demodulated again: rendered at two
/// samples per microsecond or more, sliced anywhere between silence and the
/// carrier, they come out as they went in, unless one is short enough to be a
/// glitch, or does not alternate with its neighbour.
pub proof fn timings_survive_a_round_trip(
    timings: Seq<i64>,
    sample_rate: u32,
    amplitude: i8,
    threshold: u16,
    min_us: u32,
)
    requires
        takes_turns(timings),
        forall|k: int|
            0 <= k < timings.len() ==> clock::magnitude(#[trigger] timings[k] as int)
                <= precision::LONGEST_US,
        forall|k: int|
            1 <= k < timings.len() ==> stretch_of(#[trigger] timings[k], sample_rate).1
                >= runs::shortest(min_us, sample_rate),
        sample_rate >= precision::TWO_SAMPLES_PER_US,
        1 <= threshold <= clock::magnitude(amplitude as int),
        synthesis::rendered(timings, sample_rate, amplitude).len() <= isize::MAX,
    ensures
        signed_timings(
            runs::runs_of(
                envelope::magnitudes(synthesis::rendered(timings, sample_rate, amplitude)),
                threshold,
                sample_rate,
                min_us,
            ),
        ) == timings,
{
    synthesis::rendered_length(timings, sample_rate, amplitude);
    assert forall|k: int| 0 <= k < timings.len() implies stretch_of(
        #[trigger] timings[k],
        sample_rate,
    ).1 > 0 && clock::run_us(stretch_of(timings[k], sample_rate).1, sample_rate)
        == clock::magnitude(timings[k] as int) by {
        count_in_total(timings, k, sample_rate);
        precision::timings_survive(timings[k] as int, sample_rate);
    }
    rendered_stretches(timings, sample_rate, amplitude, threshold);
    turns_are_runs(timings, runs::shortest(min_us, sample_rate), sample_rate);
    let found = runs::runs_of(
        envelope::magnitudes(synthesis::rendered(timings, sample_rate, amplitude)),
        threshold,
        sample_rate,
        min_us,
    );
    assert forall|k: int| 0 <= k < timings.len() implies signed_timings(found)[k]
        == timings[k] by {
        assert(found[k].on == (timings[k] > 0));
        assert(found[k].us == clock::magnitude(timings[k] as int));
    }
    assert(signed_timings(found) =~= timings);
}

} // verus!
