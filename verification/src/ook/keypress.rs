//! A keypress: one frame, sent again and again with silence between, comes
//! back as that many bursts.

use vstd::prelude::*;

use crate::ook::bursts;
use crate::ook::bursts::Gathering;
use crate::ook::clock;
use crate::ook::envelope;
use crate::ook::precision;
use crate::ook::round_trip;
use crate::ook::runs;
use crate::ook::runs::Run;
use crate::ook::synthesis;

verus! {

/// The timings of a frame and its repeats, each after a gap.
pub open spec fn joined(frame: Seq<i64>, gap: i64, repeat: nat) -> Seq<i64>
    decreases repeat,
{
    if repeat == 0 {
        frame
    } else {
        joined(frame, gap, (repeat - 1) as nat).push(gap) + frame
    }
}

/// The run that a timing is.
pub open spec fn run_of(timing: i64) -> Run {
    Run {
        on: timing > 0,
        us: if timing > 0 {
            timing
        } else {
            (-timing) as i64
        },
    }
}

/// The runs that timings are.
pub open spec fn runs_of_timings(timings: Seq<i64>) -> Seq<Run> {
    timings.map_values(|timing: i64| run_of(timing))
}

/// Whether a frame can be told from the silence around it: it begins and ends
/// with a mark, and its spaces are shorter than the gap.
pub open spec fn stands_out(frame: Seq<i64>, gap_us: i64, min_edges: usize) -> bool {
    &&& frame.len() > 0
    &&& frame[0] > 0
    &&& bursts::is_burst(frame, gap_us, min_edges)
}

/// Timings after each other are rendered as samples after each other.
pub proof fn rendered_concat(first: Seq<i64>, second: Seq<i64>, sample_rate: u32, amplitude: i8)
    ensures
        synthesis::rendered(first + second, sample_rate, amplitude) == synthesis::rendered(
            first,
            sample_rate,
            amplitude,
        ) + synthesis::rendered(second, sample_rate, amplitude),
    decreases second.len(),
{
    let left = synthesis::rendered(first, sample_rate, amplitude);
    if second.len() == 0 {
        assert(first + second =~= first);
        assert(left + Seq::<u8>::empty() =~= left);
    } else {
        assert((first + second).drop_last() =~= first + second.drop_last());
        rendered_concat(first, second.drop_last(), sample_rate, amplitude);
        let right = synthesis::rendered(second.drop_last(), sample_rate, amplitude);
        let tone = synthesis::tone(
            synthesis::level_of(second.last(), amplitude),
            clock::sample_count(second.last() as int, sample_rate) as nat,
        );
        assert((left + right) + tone =~= left + (right + tone));
    }
}

/// A transmission is its timings, rendered: the frame, its repeats and the
/// gaps.
pub proof fn transmission_is_joined(
    frame: Seq<i64>,
    gap: i64,
    repeat: nat,
    sample_rate: u32,
    amplitude: i8,
)
    ensures
        synthesis::repeated(
            synthesis::rendered(frame, sample_rate, amplitude),
            synthesis::rendered(seq![gap], sample_rate, amplitude),
            repeat,
        ) == synthesis::rendered(joined(frame, gap, repeat), sample_rate, amplitude),
    decreases repeat,
{
    if repeat > 0 {
        let before = joined(frame, gap, (repeat - 1) as nat);
        transmission_is_joined(frame, gap, (repeat - 1) as nat, sample_rate, amplitude);
        rendered_concat(before, seq![gap], sample_rate, amplitude);
        assert(before + seq![gap] =~= before.push(gap));
        rendered_concat(before.push(gap), frame, sample_rate, amplitude);
    }
}

/// Whether a timing lasts, and takes turns with the one before it.
spec fn turns_at(timings: Seq<i64>, k: int) -> bool {
    timings[k] != 0 && (k >= 1 ==> (timings[k] > 0) != (timings[k - 1] > 0))
}

spec fn turns(timings: Seq<i64>) -> bool {
    forall|k: int| 0 <= k < timings.len() ==> #[trigger] turns_at(timings, k)
}

proof fn lemma_turns(timings: Seq<i64>)
    ensures
        turns(timings) == round_trip::takes_turns(timings),
{
    if turns(timings) {
        assert forall|k: int| 0 <= k < timings.len() implies #[trigger] timings[k] != 0 by {
            assert(turns_at(timings, k));
        }
        assert forall|k: int| #![trigger timings[k]] 1 <= k < timings.len() implies (timings[k]
            > 0) != (timings[k - 1] > 0) by {
            assert(turns_at(timings, k));
        }
    }
}

/// A transmission takes turns as its frame does, from a mark to a mark.
proof fn lemma_joined_turns(frame: Seq<i64>, gap: i64, repeat: nat)
    requires
        turns(frame),
        frame.len() > 0,
        frame[0] > 0,
        frame.last() > 0,
        gap < 0,
    ensures
        turns(joined(frame, gap, repeat)),
        joined(frame, gap, repeat).len() > 0,
        joined(frame, gap, repeat).last() > 0,
    decreases repeat,
{
    if repeat > 0 {
        let all = joined(frame, gap, repeat);
        let before = joined(frame, gap, (repeat - 1) as nat);
        lemma_joined_turns(frame, gap, (repeat - 1) as nat);
        let n = before.len() as int;
        assert forall|k: int| 0 <= k < all.len() implies #[trigger] turns_at(all, k) by {
            if k < n {
                assert(turns_at(before, k));
            } else if k > n {
                assert(turns_at(frame, k - n - 1));
            }
        }
    }
}

/// A frame is gathered as it is.
proof fn lemma_gathered(state: Gathering, frame: Seq<i64>, count: int)
    requires
        state.current.len() == 0,
        forall|k: int| 0 <= k < frame.len() ==> #[trigger] frame[k] != 0,
        stands_out(frame, state.gap_us, state.min_edges),
        0 <= count <= frame.len(),
        forall|k: int| 0 <= k < frame.len() ==> #[trigger] frame[k] > i64::MIN,
    ensures
        state.after_all(runs_of_timings(frame.take(count))) == (Gathering {
            current: frame.take(count),
            ..state
        }),
        state.emitted_all(runs_of_timings(frame.take(count))) == Seq::<Seq<i64>>::empty(),
    decreases count,
{
    let some = runs_of_timings(frame.take(count));
    if count == 0 {
        assert(some.len() == 0);
        assert(frame.take(0) =~= state.current);
    } else {
        lemma_gathered(state, frame, count - 1);
        let before = runs_of_timings(frame.take(count - 1));
        assert(some.drop_last() =~= before);
        assert(some.last() == run_of(frame[count - 1]));
        let reached = state.after_all(before);
        assert(!reached.ends(some.last()));
        assert(reached.continues(some.last()));
        assert(bursts::signed(some.last()) == frame[count - 1]);
        assert(frame.take(count - 1).push(frame[count - 1]) =~= frame.take(count));
    }
}

/// A keypress is gathered as its frames: all but the last are complete, and
/// the last one waits for its gap.
proof fn lemma_split(frame: Seq<i64>, gap: i64, repeat: nat, gap_us: i64, min_edges: usize)
    requires
        forall|k: int| 0 <= k < frame.len() ==> #[trigger] frame[k] != 0,
        stands_out(frame, gap_us, min_edges),
        forall|k: int| 0 <= k < frame.len() ==> #[trigger] frame[k] > i64::MIN,
        i64::MIN < gap < 0,
        -gap >= gap_us,
    ensures
        ({
            let start = Gathering::start(gap_us, min_edges);
            let runs = runs_of_timings(joined(frame, gap, repeat));
            &&& start.after_all(runs) == (Gathering { current: frame, ..start })
            &&& start.emitted_all(runs) == Seq::new(repeat, |k: int| frame)
        }),
    decreases repeat,
{
    let start = Gathering::start(gap_us, min_edges);
    let own = runs_of_timings(frame);
    lemma_gathered(start, frame, frame.len() as int);
    assert(frame.take(frame.len() as int) =~= frame);
    if repeat == 0 {
        assert(Seq::new(0, |k: int| frame) =~= Seq::<Seq<i64>>::empty());
    } else {
        let before = joined(frame, gap, (repeat - 1) as nat);
        lemma_split(frame, gap, (repeat - 1) as nat, gap_us, min_edges);
        let earlier = runs_of_timings(before);
        let silence = runs_of_timings(before.push(gap));
        assert(silence.drop_last() =~= earlier);
        assert(silence.last() == run_of(gap));
        assert(bursts::trimmed(frame) == frame);
        assert(start.after_all(silence) == start);
        let told = Seq::new((repeat - 1) as nat, |k: int| frame);
        assert(start.emitted_all(silence) =~= told.push(frame));
        assert(told.push(frame) =~= Seq::new(repeat, |k: int| frame));
        assert(runs_of_timings(joined(frame, gap, repeat)) =~= silence + own);
        bursts::gathering_concat(start, silence, own);
        assert(start.emitted_all(silence) + Seq::<Seq<i64>>::empty() =~= start.emitted_all(
            silence,
        ));
    }
}

/// Whether a timing can be measured.
spec fn measurable(timing: i64, sample_rate: u32, min_us: u32) -> bool {
    &&& clock::magnitude(timing as int) <= precision::LONGEST_US
    &&& round_trip::stretch_of(timing, sample_rate).1 >= runs::shortest(min_us, sample_rate)
}

/// What is measured of timings is what they were.
#[verifier::rlimit(30)]
#[verifier::spinoff_prover]
proof fn lemma_measured(
    timings: Seq<i64>,
    sample_rate: u32,
    amplitude: i8,
    threshold: u16,
    min_us: u32,
)
    requires
        turns(timings),
        forall|k: int|
            0 <= k < timings.len() ==> #[trigger] measurable(timings[k], sample_rate, min_us),
        sample_rate >= precision::TWO_SAMPLES_PER_US,
        1 <= threshold <= clock::magnitude(amplitude as int),
        synthesis::rendered(timings, sample_rate, amplitude).len() <= isize::MAX,
    ensures
        runs::runs_of(
            envelope::magnitudes(synthesis::rendered(timings, sample_rate, amplitude)),
            threshold,
            sample_rate,
            min_us,
        ) == runs_of_timings(timings),
{
    let mags = envelope::magnitudes(synthesis::rendered(timings, sample_rate, amplitude));
    let found = runs::runs_of(mags, threshold, sample_rate, min_us);
    assert(round_trip::signed_timings(found) == timings) by {
        assert forall|k: int| 0 <= k < timings.len() implies clock::magnitude(
            #[trigger] timings[k] as int,
        ) <= precision::LONGEST_US by {
            assert(measurable(timings[k], sample_rate, min_us));
        }
        assert forall|k: int| 1 <= k < timings.len() implies round_trip::stretch_of(
            #[trigger] timings[k],
            sample_rate,
        ).1 >= runs::shortest(min_us, sample_rate) by {
            assert(measurable(timings[k], sample_rate, min_us));
        }
        lemma_turns(timings);
        round_trip::timings_survive_a_round_trip(
            timings,
            sample_rate,
            amplitude,
            threshold,
            min_us,
        );
    }
    runs::folded_lasts(
        runs::stretches(runs::slice(mags, threshold)),
        runs::shortest(min_us, sample_rate),
        sample_rate,
    );
    assert(round_trip::signed_timings(found).len() == found.len());
    assert forall|k: int| 0 <= k < found.len() implies #[trigger] found[k] == run_of(
        timings[k],
    ) by {
        assert(round_trip::signed_timings(found)[k] == bursts::signed(found[k]));
        assert(turns_at(timings, k));
    }
    assert(found =~= runs_of_timings(timings));
}

/// Everything in a transmission can be measured where the frame and the gap
/// can.
proof fn lemma_joined_measurable(
    frame: Seq<i64>,
    gap: i64,
    repeat: nat,
    sample_rate: u32,
    min_us: u32,
)
    requires
        forall|k: int|
            0 <= k < frame.len() ==> #[trigger] measurable(frame[k], sample_rate, min_us),
        repeat > 0 ==> measurable(gap, sample_rate, min_us),
    ensures
        forall|k: int|
            0 <= k < joined(frame, gap, repeat).len() ==> #[trigger] measurable(
                joined(frame, gap, repeat)[k],
                sample_rate,
                min_us,
            ),
    decreases repeat,
{
    if repeat > 0 {
        let all = joined(frame, gap, repeat);
        let before = joined(frame, gap, (repeat - 1) as nat);
        lemma_joined_measurable(frame, gap, (repeat - 1) as nat, sample_rate, min_us);
        let n = before.len() as int;
        assert forall|k: int| 0 <= k < all.len() implies #[trigger] measurable(
            all[k],
            sample_rate,
            min_us,
        ) by {
            if k < n {
                assert(measurable(before[k], sample_rate, min_us));
            } else if k > n {
                assert(measurable(frame[k - n - 1], sample_rate, min_us));
            }
        }
    }
}

/// A keypress comes back as its repeats. A frame that is transmitted again and
/// again, with a silence between that is long enough to separate bursts, is
/// demodulated into as many bursts, each of them the frame, and the silence is
/// part of none.
#[verifier::rlimit(30)]
#[verifier::spinoff_prover]
pub proof fn repeats_come_back(
    frame: Seq<i64>,
    repeat: u32,
    gap_us: u32,
    sample_rate: u32,
    amplitude: i8,
    threshold: u16,
    min_us: u32,
    burst_gap_us: i64,
    min_edges: usize,
)
    requires
        round_trip::takes_turns(frame),
        stands_out(frame, burst_gap_us, min_edges),
        0 < gap_us,
        burst_gap_us <= gap_us,
        forall|k: int|
            0 <= k < frame.len() ==> clock::magnitude(#[trigger] frame[k] as int)
                <= precision::LONGEST_US,
        forall|k: int|
            0 <= k < frame.len() ==> round_trip::stretch_of(#[trigger] frame[k], sample_rate).1
                >= runs::shortest(min_us, sample_rate),
        repeat > 0 ==> round_trip::stretch_of((-gap_us) as i64, sample_rate).1 >= runs::shortest(
            min_us,
            sample_rate,
        ),
        sample_rate >= precision::TWO_SAMPLES_PER_US,
        1 <= threshold <= clock::magnitude(amplitude as int),
        synthesis::transmission(frame, repeat, gap_us, sample_rate, amplitude).len()
            <= isize::MAX,
    ensures
        bursts::bursts_of(
            runs::runs_of(
                envelope::magnitudes(
                    synthesis::transmission(frame, repeat, gap_us, sample_rate, amplitude),
                ),
                threshold,
                sample_rate,
                min_us,
            ),
            burst_gap_us,
            min_edges,
        ) == Seq::new((repeat + 1) as nat, |k: int| frame),
{
    let gap = (-gap_us) as i64;
    let all = joined(frame, gap, repeat as nat);
    assert(runs::runs_of(
        envelope::magnitudes(
            synthesis::transmission(frame, repeat, gap_us, sample_rate, amplitude),
        ),
        threshold,
        sample_rate,
        min_us,
    ) == runs_of_timings(all)) by {
        transmission_is_joined(frame, gap, repeat as nat, sample_rate, amplitude);
        lemma_turns(frame);
        lemma_joined_turns(frame, gap, repeat as nat);
        assert forall|k: int| 0 <= k < frame.len() implies #[trigger] measurable(
            frame[k],
            sample_rate,
            min_us,
        ) by {}
        lemma_joined_measurable(frame, gap, repeat as nat, sample_rate, min_us);
        lemma_measured(all, sample_rate, amplitude, threshold, min_us);
    }
    assert forall|k: int| 0 <= k < frame.len() implies #[trigger] frame[k] > i64::MIN by {
        assert(clock::magnitude(frame[k] as int) <= precision::LONGEST_US);
    }
    lemma_split(frame, gap, repeat as nat, burst_gap_us, min_edges);
    assert(bursts::trimmed(frame) == frame);
    assert(Seq::new(repeat as nat, |k: int| frame).push(frame) =~= Seq::new(
        (repeat + 1) as nat,
        |k: int| frame,
    ));
}

} // verus!
