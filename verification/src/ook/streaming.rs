//! A live stream is heard as its recording would be.

use vstd::prelude::*;

use crate::float;
use crate::ook::bursts;
use crate::ook::bursts::Gathering;
use crate::ook::clock;
use crate::ook::detector;
use crate::ook::detector::{DetectorConfig, Heard, Listening};
use crate::ook::precision;
use crate::ook::round_trip;
use crate::ook::runs;
use crate::ook::runs::Run;

verus! {

/// Some samples sliced at a fixed threshold.
pub open spec fn sliced_all(state: Listening, mags: Seq<u16>, threshold: u16) -> (
    Listening,
    Seq<Heard>,
)
    decreases mags.len(),
{
    if mags.len() == 0 {
        (state, Seq::empty())
    } else {
        let (before, heard) = sliced_all(state, mags.drop_last(), threshold);
        let (after, more) = before.sliced(mags.last(), threshold);
        (after, heard + more)
    }
}

/// The recording over: the run in progress completed, and everything handed
/// on.
pub open spec fn drained(state: Listening) -> (Listening, Seq<Heard>) {
    let (completed, heard) = state.completed();
    let (flushed, more) = completed.flushed();
    (flushed, heard + more)
}

/// Settings under which durations in samples and in microseconds agree: a
/// silence of the gap's samples lasts the gap, a run that is no glitch lasts,
/// and the gap is no glitch itself.
pub open spec fn regular(config: DetectorConfig) -> bool {
    &&& config.min_edges >= 1
    &&& config.min_samples() <= config.gap_samples()
    &&& forall|n: nat|
        config.gap_samples() <= n <= u64::MAX ==> #[trigger] clock::run_us(n, config.sample_rate)
            >= config.gap_us
    &&& forall|n: nat|
        config.min_samples() <= n <= u64::MAX ==> #[trigger] clock::run_us(n, config.sample_rate)
            >= 1
}

/// At two samples per microsecond or more, every glitch floor from a
/// microsecond on that is no longer than the gap is regular.
pub proof fn settings_are_regular(config: DetectorConfig)
    requires
        config.sample_rate >= precision::TWO_SAMPLES_PER_US,
        1 <= config.min_us <= config.gap_us <= precision::LONGEST_US,
        config.min_edges >= 1,
    ensures
        regular(config),
{
    let rate = config.sample_rate;
    assert(clock::from_int(config.gap_us as int) == float::from_nat(config.gap_us as nat));
    precision::floors_are_ordered(config.min_us, config.gap_us as nat, rate, u64::MAX as int);
    assert forall|n: nat| config.gap_samples() <= n <= u64::MAX implies #[trigger] clock::run_us(
        n,
        rate,
    ) >= config.gap_us by {
        precision::samples_last(config.gap_us as nat, n, rate);
    }
    assert forall|n: nat| config.min_samples() <= n <= u64::MAX implies #[trigger] clock::run_us(
        n,
        rate,
    ) >= 1 by {
        precision::samples_last(config.min_us as nat, n, rate);
    }
}

/// Nothing sliced yet.
pub open spec fn fresh(state: Listening) -> bool {
    &&& !state.on
    &&& state.run_samples == 0
    &&& state.pending is None
    &&& state.gathering == Gathering::start(state.config.gap_us, state.config.min_edges)
}

/// Whether the silence that would end a burst comes in pieces, at the very
/// moment when the burst has as many edges as can be held: the first piece is
/// then one edge too many.
pub open spec fn crowded(state: Listening) -> bool {
    &&& state.gap_reached()
    &&& state.pending matches Some(run) && !run.on && run.us < state.config.gap_us
    &&& state.gathering.current.len() >= bursts::MAX_BURST_EDGES
}

/// Whether a recording begins with a carrier too short to be a run.
pub open spec fn begins_with_a_glitch(carrier: Seq<bool>, min_samples: int) -> bool {
    &&& runs::stretches(carrier).len() > 0
    &&& runs::stretches(carrier)[0].0
    &&& runs::stretches(carrier)[0].1 < min_samples
}

spec fn listed(burst: Option<Seq<i64>>) -> Seq<Seq<i64>> {
    match burst {
        Some(timings) => seq![timings],
        None => Seq::empty(),
    }
}

spec fn origin(config: DetectorConfig) -> Gathering {
    Gathering::start(config.gap_us, config.min_edges)
}

proof fn lemma_timings_concat(first: Seq<Heard>, second: Seq<Heard>)
    ensures
        detector::timings_of(first + second) == detector::timings_of(first)
            + detector::timings_of(second),
{
    assert(detector::timings_of(first + second) =~= detector::timings_of(first)
        + detector::timings_of(second));
}

proof fn lemma_given(state: Listening, run: Run, peak: u16)
    ensures
        state.given(run, peak).0.gathering == state.gathering.after(run),
        state.given(run, peak).0.pending == state.pending,
        state.given(run, peak).0.config == state.config,
        state.given(run, peak).0.on == state.on,
        state.given(run, peak).0.run_samples == state.run_samples,
        detector::timings_of(state.given(run, peak).1) == listed(state.gathering.emitted(run)),
{
    assert(detector::timings_of(state.given(run, peak).1) =~= listed(state.gathering.emitted(run)));
}

proof fn lemma_ended(state: Listening)
    ensures
        state.ended().0.gathering == state.gathering.cleared(),
        state.ended().0.pending == state.pending,
        state.ended().0.config == state.config,
        state.ended().0.on == state.on,
        state.ended().0.run_samples == state.run_samples,
        detector::timings_of(state.ended().1) == listed(state.gathering.closed()),
{
    assert(detector::timings_of(state.ended().1) =~= listed(state.gathering.closed()));
}

/// One more run handed on.
proof fn lemma_handed(start: Gathering, runs: Seq<Run>, run: Run)
    ensures
        start.after_all(runs.push(run)) == start.after_all(runs).after(run),
        start.emitted_all(runs.push(run)) == start.emitted_all(runs) + listed(
            start.after_all(runs).emitted(run),
        ),
{
    assert(runs.push(run).drop_last() == runs);
    let before = start.emitted_all(runs);
    match start.after_all(runs).emitted(run) {
        Some(burst) => {
            assert(before.push(burst) =~= before + seq![burst]);
        },
        None => {
            assert(before =~= before + Seq::<Seq<i64>>::empty());
        },
    }
}

proof fn lemma_bursts_of(config: DetectorConfig, runs: Seq<Run>)
    ensures
        bursts::bursts_of(runs, config.gap_us, config.min_edges) == origin(config).emitted_all(runs)
            + listed(origin(config).after_all(runs).closed()),
{
    let before = origin(config).emitted_all(runs);
    match origin(config).after_all(runs).closed() {
        Some(burst) => {
            assert(before.push(burst) =~= before + seq![burst]);
        },
        None => {
            assert(before =~= before + Seq::<Seq<i64>>::empty());
        },
    }
}

proof fn lemma_settings_kept(start: Gathering, runs: Seq<Run>)
    ensures
        start.after_all(runs).gap_us == start.gap_us,
        start.after_all(runs).min_edges == start.min_edges,
    decreases runs.len(),
{
    if runs.len() > 0 {
        lemma_settings_kept(start, runs.drop_last());
    }
}

/// The runs so far, all but the last handed on, the last one held back.
spec fn held(state: Listening, runs: Seq<Run>, heard: Seq<Heard>) -> bool {
    let start = origin(state.config);
    if runs.len() == 0 {
        &&& state.pending is None
        &&& state.gathering == start
        &&& heard.len() == 0
    } else {
        &&& state.pending == Some(runs.last())
        &&& state.gathering == start.after_all(runs.drop_last())
        &&& detector::timings_of(heard) == start.emitted_all(runs.drop_last())
    }
}

/// Everything handed on, and the burst closed by a silence still in progress.
spec fn delivered(state: Listening, runs: Seq<Run>, heard: Seq<Heard>) -> bool {
    let start = origin(state.config);
    &&& state.pending is None
    &&& state.gathering == start.after_all(runs).cleared()
    &&& detector::timings_of(heard) == bursts::bursts_of(
        runs,
        state.config.gap_us,
        state.config.min_edges,
    )
    &&& runs.len() > 0 && !runs.last().on && runs.last().us < state.config.gap_us
        ==> start.after_all(runs.drop_last()).current.len() < bursts::MAX_BURST_EDGES
}

/// The silence after a burst that has been delivered, held back.
spec fn resting(state: Listening, runs: Seq<Run>, heard: Seq<Heard>) -> bool {
    let start = origin(state.config);
    &&& runs.len() > 0
    &&& !runs.last().on
    &&& runs.last().us >= state.config.gap_us
    &&& state.pending matches Some(run) && !run.on && run.us >= state.config.gap_us && run.us >= 0
    &&& state.gathering == start.after_all(runs)
    &&& detector::timings_of(heard) == start.emitted_all(runs)
}

/// The carrier came on with the first sample.
spec fn opening(state: Listening, runs: Seq<Run>, heard: Seq<Heard>) -> bool {
    &&& runs.len() == 0
    &&& state.on
    &&& state.pending matches Some(run) && !run.on
    &&& state.gathering == origin(state.config)
    &&& heard.len() == 0
}

/// What holds of the runs themselves: none is negative, and only a leading
/// silence can be shorter than a microsecond.
spec fn lasting(runs: Seq<Run>) -> bool {
    &&& forall|k: int| 0 <= k < runs.len() ==> (#[trigger] runs[k]).us >= 0
    &&& forall|k: int| 1 <= k < runs.len() ==> (#[trigger] runs[k]).us >= 1
    &&& runs.len() > 0 && runs[0].on ==> runs[0].us >= 1
}

/// The runs with the run in progress added.
spec fn extended_runs(state: Listening, runs: Seq<Run>) -> Seq<Run> {
    runs::with_stretch(
        runs,
        (state.on, state.run_samples as nat),
        state.config.min_samples(),
        state.config.sample_rate,
    )
}

proof fn lemma_lasting(state: Listening, runs: Seq<Run>)
    requires
        regular(state.config),
        lasting(runs),
        runs.len() == 0 && state.on ==> state.run_samples >= state.config.min_samples(),
    ensures
        lasting(extended_runs(state, runs)),
{
    let after = extended_runs(state, runs);
    clock::run_us_bounds(state.run_samples as nat, state.config.sample_rate);
    assert forall|k: int| 0 <= k < after.len() implies (#[trigger] after[k]).us >= 0 && (k >= 1
        ==> after[k].us >= 1) by {
        if k < runs.len() {
            assert(runs[k].us >= 0);
        }
    }
}

proof fn lemma_held_completed(state: Listening, runs: Seq<Run>, heard: Seq<Heard>)
    requires
        held(state, runs, heard),
    ensures
        held(
            state.completed().0,
            extended_runs(state, runs),
            heard + state.completed().1,
        ),
{
    let after = extended_runs(state, runs);
    let start = origin(state.config);
    let more = state.completed().1;
    lemma_timings_concat(heard, more);
    if runs.len() == 0 {
        assert(after.drop_last() =~= Seq::<Run>::empty());
        assert(detector::timings_of(heard + more) =~= Seq::<Seq<i64>>::empty());
    } else {
        let previous = runs.last();
        let run = state.current_run();
        let glitch = state.run_samples < state.config.min_samples();
        if glitch || previous.on == run.on {
            assert(after.drop_last() =~= runs.drop_last());
            assert(heard + more =~= heard);
        } else {
            assert(after.drop_last() =~= runs);
            assert(runs.drop_last().push(previous) =~= runs);
            lemma_handed(start, runs.drop_last(), previous);
            lemma_given(
                Listening { pending: Some(run), pending_peak: state.run_peak, ..state },
                previous,
                state.pending_peak,
            );
        }
    }
}

/// Handing on the run held back and closing the burst completes the list.
proof fn lemma_drained(state: Listening, runs: Seq<Run>, heard: Seq<Heard>)
    requires
        held(state, runs, heard),
    ensures
        state.flushed().0.pending is None,
        state.flushed().0.config == state.config,
        state.flushed().0.gathering == origin(state.config).after_all(runs).cleared(),
        detector::timings_of(heard + state.flushed().1) == bursts::bursts_of(
            runs,
            state.config.gap_us,
            state.config.min_edges,
        ),
{
    let start = origin(state.config);
    lemma_bursts_of(state.config, runs);
    if runs.len() == 0 {
        lemma_ended(state);
        let second = state.ended().1;
        assert(Seq::<Heard>::empty() + second =~= second);
        assert(heard + second =~= second);
        assert(start.after_all(runs) == start);
        assert(start.emitted_all(runs) + listed(start.closed()) =~= listed(start.closed()));
    } else {
        let run = runs.last();
        let free = Listening { pending: None, pending_peak: 0, ..state };
        lemma_given(free, run, state.pending_peak);
        let (handed, first) = free.given(run, state.pending_peak);
        lemma_ended(handed);
        let second = handed.ended().1;
        lemma_timings_concat(first, second);
        lemma_timings_concat(heard, first + second);
        assert(runs.drop_last().push(run) =~= runs);
        lemma_handed(start, runs.drop_last(), run);
        assert(detector::timings_of(heard) + (detector::timings_of(first) + detector::timings_of(
            second,
        )) =~= (detector::timings_of(heard) + detector::timings_of(first)) + detector::timings_of(
            second,
        ));
    }
}

proof fn lemma_opening_completed(state: Listening, runs: Seq<Run>, heard: Seq<Heard>)
    requires
        regular(state.config),
        opening(state, runs, heard),
        state.run_samples >= state.config.min_samples(),
    ensures
        held(
            state.completed().0,
            extended_runs(state, runs),
            heard + state.completed().1,
        ),
{
    let after = extended_runs(state, runs);
    let start = origin(state.config);
    let previous = state.pending->0;
    let run = state.current_run();
    lemma_given(
                Listening { pending: Some(run), pending_peak: state.run_peak, ..state },
                previous,
                state.pending_peak,
            );
    let more = state.completed().1;
    lemma_timings_concat(heard, more);
    assert(after.drop_last() =~= Seq::<Run>::empty());
    assert(bursts::trimmed(start.current).len() == 0);
    assert(start.cleared() == start);
    assert(detector::timings_of(heard + more) =~= Seq::<Seq<i64>>::empty());
}

/// A trailing space changes nothing of a burst that is closed.
proof fn lemma_trailing_space(gathering: Gathering, run: Run)
    requires
        !run.on,
        0 <= run.us < gathering.gap_us,
        gathering.current.len() > 0 ==> run.us >= 1,
        gathering.current.len() < bursts::MAX_BURST_EDGES,
    ensures
        gathering.after(run).cleared() == gathering.cleared(),
        gathering.after(run).closed() == gathering.closed(),
        gathering.emitted(run) is None,
{
    if gathering.current.len() > 0 {
        let timing = bursts::signed(run);
        assert(gathering.current.push(timing).drop_last() =~= gathering.current);
    }
}

proof fn lemma_delivered_completed(state: Listening, runs: Seq<Run>, heard: Seq<Heard>)
    requires
        regular(state.config),
        delivered(state, runs, heard),
        lasting(runs),
        !state.on,
        state.run_samples >= state.config.gap_samples(),
    ensures
        resting(
            state.completed().0,
            extended_runs(state, runs),
            heard + state.completed().1,
        ),
{
    let config = state.config;
    let start = origin(config);
    let after = extended_runs(state, runs);
    let n = state.run_samples as nat;
    clock::run_us_bounds(n, config.sample_rate);
    assert(clock::run_us(n, config.sample_rate) >= config.gap_us);
    assert(heard + state.completed().1 =~= heard);
    lemma_bursts_of(config, runs);
    lemma_settings_kept(start, runs);
    if runs.len() > 0 && !runs.last().on {
        let rest = runs.drop_last();
        let previous = runs.last();
        assert(runs[runs.len() - 1].us >= 0);
        assert(after.drop_last() =~= rest);
        assert(rest.push(previous) =~= runs);
        assert(rest.push(after.last()) =~= after);
        lemma_handed(start, rest, previous);
        lemma_handed(start, rest, after.last());
        lemma_settings_kept(start, rest);
        let before = start.after_all(rest);
        if previous.us < config.gap_us {
            if rest.len() == 0 {
                assert(before == start);
            } else {
                assert(runs[runs.len() - 1].us >= 1);
            }
            lemma_trailing_space(before, previous);
            assert(start.emitted_all(runs) =~= start.emitted_all(rest));
        } else {
            assert(bursts::trimmed(before.cleared().current).len() == 0);
            assert(start.emitted_all(runs) + listed(start.after_all(runs).closed())
                =~= start.emitted_all(runs));
        }
    } else {
        assert(after.drop_last() =~= runs);
        assert(runs.push(after.last()) =~= after);
        lemma_handed(start, runs, after.last());
    }
}

proof fn lemma_resting_completed(state: Listening, runs: Seq<Run>, heard: Seq<Heard>)
    requires
        regular(state.config),
        resting(state, runs, heard),
        lasting(runs),
    ensures
        ({
            let after = extended_runs(state, runs);
            let (next, more) = state.completed();
            held(next, after, heard + more) || resting(next, after, heard + more)
        }),
{
    let config = state.config;
    let start = origin(config);
    let after = extended_runs(state, runs);
    let (next, more) = state.completed();
    let rest = runs.drop_last();
    let previous = runs.last();
    let run = state.current_run();
    clock::run_us_bounds(state.run_samples as nat, config.sample_rate);
    assert(runs[runs.len() - 1].us >= 0);
    assert(rest.push(previous) =~= runs);
    lemma_handed(start, rest, previous);
    lemma_settings_kept(start, rest);
    if state.run_samples < config.min_samples() || !run.on {
        assert(after.drop_last() =~= rest);
        assert(rest.push(after.last()) =~= after);
        lemma_handed(start, rest, after.last());
        assert(heard + more =~= heard);
        assert(resting(next, after, heard + more));
    } else {
        let silence = state.pending->0;
        assert(after.drop_last() =~= runs);
        lemma_given(
            Listening { pending: Some(run), pending_peak: state.run_peak, ..state },
            silence,
            state.pending_peak,
        );
        assert(bursts::trimmed(state.gathering.current).len() == 0);
        lemma_timings_concat(heard, more);
        assert(detector::timings_of(heard + more) =~= detector::timings_of(heard));
        assert(held(next, after, heard + more));
    }
}

proof fn lemma_resting_flushed(state: Listening, runs: Seq<Run>, heard: Seq<Heard>)
    requires
        regular(state.config),
        resting(state, runs, heard),
    ensures
        delivered(state.flushed().0, runs, heard + state.flushed().1),
{
    let config = state.config;
    let start = origin(config);
    let rest = runs.drop_last();
    assert(rest.push(runs.last()) =~= runs);
    lemma_handed(start, rest, runs.last());
    lemma_settings_kept(start, rest);
    lemma_bursts_of(config, runs);
    let free = Listening { pending: None, pending_peak: 0, ..state };
    let run = state.pending->0;
    lemma_given(free, run, state.pending_peak);
    let (handed, first) = free.given(run, state.pending_peak);
    lemma_ended(handed);
    let second = handed.ended().1;
    lemma_timings_concat(first, second);
    lemma_timings_concat(heard, first + second);
    assert(bursts::trimmed(state.gathering.current).len() == 0);
    assert(detector::timings_of(heard + (first + second)) =~= detector::timings_of(heard));
    assert(start.emitted_all(runs) + listed(start.after_all(runs).closed()) =~= start.emitted_all(
        runs,
    ));
}

/// What is done of a longer recording is done for good.
proof fn lemma_stretches_prefix(carrier: Seq<bool>)
    requires
        carrier.len() > 0,
    ensures
        ({
            let before = runs::stretches(carrier.drop_last());
            let after = runs::stretches(carrier);
            &&& before.len() <= after.len() <= before.len() + 1
            &&& forall|k: int| 0 <= k < before.len() - 1 ==> before[k] == after[k]
            &&& before.len() < after.len() ==> after.drop_last() =~= before
            &&& before.len() == after.len() ==> after.drop_last() =~= before.drop_last()
        }),
{
}

/// Glitch floors that agree on every stretch fold alike.
proof fn lemma_same_folding(stretches: Seq<(bool, nat)>, a: int, b: int, sample_rate: u32)
    requires
        forall|k: int|
            0 <= k < stretches.len() ==> (#[trigger] stretches[k].1 < a) == (stretches[k].1 < b),
    ensures
        runs::folded(stretches, a, sample_rate) == runs::folded(stretches, b, sample_rate),
    decreases stretches.len(),
{
    if stretches.len() > 0 {
        let rest = stretches.drop_last();
        assert forall|k: int| 0 <= k < rest.len() implies (#[trigger] rest[k].1 < a) == (rest[k].1
            < b) by {
            assert(rest[k] == stretches[k]);
        }
        lemma_same_folding(rest, a, b, sample_rate);
        let last = stretches[stretches.len() - 1];
        assert((last.1 < a) == (last.1 < b));
    }
}

/// Where the state stands between two samples.
spec fn phase(state: Listening, carrier: Seq<bool>, heard: Seq<Heard>) -> bool {
    let stretches = runs::stretches(carrier);
    let done = stretches.drop_last();
    let runs = runs::folded(done, state.config.min_samples(), state.config.sample_rate);
    &&& stretches.len() > 0
    &&& state.on == stretches.last().0
    &&& state.run_samples == stretches.last().1
    &&& lasting(runs)
    &&& if done.len() == 0 && state.on {
        opening(state, runs, heard)
    } else if !state.on && state.run_samples >= state.config.gap_samples() {
        delivered(state, runs, heard)
    } else {
        held(state, runs, heard) || resting(state, runs, heard)
    }
}

/// Where the state stands when a sample has come, before a silence that has
/// just reached the gap delivers anything.
spec fn measured(state: Listening, carrier: Seq<bool>, heard: Seq<Heard>) -> bool {
    let stretches = runs::stretches(carrier);
    let done = stretches.drop_last();
    let runs = runs::folded(done, state.config.min_samples(), state.config.sample_rate);
    &&& stretches.len() > 0
    &&& state.on == stretches.last().0
    &&& state.run_samples == stretches.last().1
    &&& lasting(runs)
    &&& if done.len() == 0 && state.on {
        opening(state, runs, heard)
    } else if !state.on && state.run_samples > state.config.gap_samples() {
        delivered(state, runs, heard)
    } else {
        held(state, runs, heard) || resting(state, runs, heard)
    }
}

/// Once the first run is over, it was no short mark.
spec fn opened(carrier: Seq<bool>, min_samples: int) -> bool {
    runs::stretches(carrier).len() >= 2 ==> !begins_with_a_glitch(carrier, min_samples)
}

/// A run that is added keeps what is known of the ones before.
proof fn lemma_completed(state: Listening, carrier: Seq<bool>, heard: Seq<Heard>)
    requires
        regular(state.config),
        phase(state, carrier, heard),
        runs::stretches(carrier).len() == 1 ==> !begins_with_a_glitch(
            carrier,
            state.config.min_samples(),
        ),
    ensures
        ({
            let runs = runs::folded(
                runs::stretches(carrier),
                state.config.min_samples(),
                state.config.sample_rate,
            );
            let (next, more) = state.completed();
            &&& lasting(runs)
            &&& next.config == state.config
            &&& held(next, runs, heard + more) || resting(next, runs, heard + more)
        }),
{
    let stretches = runs::stretches(carrier);
    let done = stretches.drop_last();
    let before = runs::folded(done, state.config.min_samples(), state.config.sample_rate);
    let after = runs::folded(stretches, state.config.min_samples(), state.config.sample_rate);
    assert(after == extended_runs(state, before));
    if done.len() == 0 {
        assert(before.len() == 0);
    } else {
        lemma_folded_nonempty(done, state.config.min_samples(), state.config.sample_rate);
    }
    lemma_lasting(state, before);
    if done.len() == 0 && state.on {
        lemma_opening_completed(state, before, heard);
    } else if !state.on && state.run_samples >= state.config.gap_samples() {
        lemma_delivered_completed(state, before, heard);
    } else if held(state, before, heard) {
        lemma_held_completed(state, before, heard);
    } else {
        lemma_resting_completed(state, before, heard);
    }
}

proof fn lemma_folded_nonempty(stretches: Seq<(bool, nat)>, min_samples: int, sample_rate: u32)
    requires
        stretches.len() > 0,
    ensures
        runs::folded(stretches, min_samples, sample_rate).len() > 0,
{
}

/// A silence that reaches the gap delivers what there is.
proof fn lemma_reached(state: Listening, runs: Seq<Run>, heard: Seq<Heard>)
    requires
        regular(state.config),
        held(state, runs, heard) || resting(state, runs, heard),
        state.gap_reached(),
        !crowded(state),
    ensures
        delivered(state.flushed().0, runs, heard + state.flushed().1),
        state.flushed().0.config == state.config,
        state.flushed().0.on == state.on,
        state.flushed().0.run_samples == state.run_samples,
{
    if held(state, runs, heard) {
        lemma_drained(state, runs, heard);
    } else {
        lemma_resting_flushed(state, runs, heard);
    }
    match state.pending {
        Some(run) => {
            let free = Listening { pending: None, pending_peak: 0, ..state };
            lemma_given(free, run, state.pending_peak);
            lemma_ended(free.given(run, state.pending_peak).0);
        },
        None => {
            lemma_ended(state);
        },
    }
}

/// The first sample sets the state up.
proof fn lemma_first_sample(start: Listening, carrier: Seq<bool>, magnitude: u16, threshold: u16)
    requires
        regular(start.config),
        fresh(start),
        carrier == seq![magnitude >= threshold],
    ensures
        measured(
            start.extended(magnitude, threshold).0,
            carrier,
            start.extended(magnitude, threshold).1,
        ),
        start.extended(magnitude, threshold).0.config == start.config,
{
    let past = carrier.drop_last();
    assert(past =~= Seq::<bool>::empty());
    lemma_stretches_prefix(carrier);
    round_trip::last_stretch(carrier);
    assert(runs::stretches(past) =~= Seq::<(bool, nat)>::empty());
    assert(runs::stretches(carrier).drop_last() =~= Seq::<(bool, nat)>::empty());
    assert(start.extended(magnitude, threshold).1 =~= Seq::<Heard>::empty());
}

/// A further sample extends the run in progress, or completes it.
proof fn lemma_further_sample(
    before: Listening,
    carrier: Seq<bool>,
    heard: Seq<Heard>,
    magnitude: u16,
    threshold: u16,
)
    requires
        regular(before.config),
        1 < carrier.len() < usize::MAX,
        carrier.last() == (magnitude >= threshold),
        phase(before, carrier.drop_last(), heard),
        opened(carrier, before.config.min_samples()),
    ensures
        measured(
            before.extended(magnitude, threshold).0,
            carrier,
            heard + before.extended(magnitude, threshold).1,
        ),
        before.extended(magnitude, threshold).0.config == before.config,
{
    let past = carrier.drop_last();
    let on = magnitude >= threshold;
    let (next, more) = before.extended(magnitude, threshold);
    let done = runs::stretches(carrier).drop_last();
    lemma_stretches_prefix(carrier);
    runs::stretch_bound(past);
    round_trip::last_stretch(carrier);
    round_trip::last_stretch(past);
    if on == before.on {
        assert(done =~= runs::stretches(past).drop_last());
        assert(heard + more =~= heard);
    } else {
        assert(done =~= runs::stretches(past));
        lemma_completed(before, past, heard);
    }
}

/// A silence that has just reached the gap delivers, and anything else waits.
proof fn lemma_settled(next: Listening, carrier: Seq<bool>, heard: Seq<Heard>)
    requires
        regular(next.config),
        measured(next, carrier, heard),
        !crowded(next),
    ensures
        next.gap_reached() ==> phase(next.flushed().0, carrier, heard + next.flushed().1)
            && next.flushed().0.config == next.config,
        !next.gap_reached() ==> phase(next, carrier, heard),
{
    if next.gap_reached() {
        let done = runs::stretches(carrier).drop_last();
        let runs = runs::folded(done, next.config.min_samples(), next.config.sample_rate);
        lemma_reached(next, runs, heard);
    }
}

/// After any number of samples, the state stands where the recording does.
proof fn lemma_phase(start: Listening, mags: Seq<u16>, threshold: u16)
    requires
        regular(start.config),
        fresh(start),
        0 < mags.len() < usize::MAX,
        opened(runs::slice(mags, threshold), start.config.min_samples()),
        forall|k: int|
            0 <= k < mags.len() ==> !crowded(
                #[trigger] sliced_all(start, mags.take(k), threshold).0.extended(
                    mags[k],
                    threshold,
                ).0,
            ),
    ensures
        phase(
            sliced_all(start, mags, threshold).0,
            runs::slice(mags, threshold),
            sliced_all(start, mags, threshold).1,
        ),
        sliced_all(start, mags, threshold).0.config == start.config,
    decreases mags.len(),
{
    let carrier = runs::slice(mags, threshold);
    let rest = mags.drop_last();
    let past = runs::slice(rest, threshold);
    let magnitude = mags.last();
    let (before, heard) = sliced_all(start, rest, threshold);
    let (next, more) = before.extended(magnitude, threshold);
    assert(carrier.drop_last() =~= past);
    assert(carrier.last() == (magnitude >= threshold));
    assert(mags.take(mags.len() - 1) =~= rest);
    assert(!crowded(
        sliced_all(start, mags.take(mags.len() - 1), threshold).0.extended(
            mags[mags.len() - 1],
            threshold,
        ).0,
    ));
    if rest.len() == 0 {
        assert(carrier =~= seq![magnitude >= threshold]);
        lemma_first_sample(start, carrier, magnitude, threshold);
        assert(heard + more =~= more);
    } else {
        assert forall|k: int| 0 <= k < rest.len() implies !crowded(
            #[trigger] sliced_all(start, rest.take(k), threshold).0.extended(rest[k], threshold).0,
        ) by {
            assert(rest.take(k) =~= mags.take(k));
            assert(!crowded(
                sliced_all(start, mags.take(k), threshold).0.extended(mags[k], threshold).0,
            ));
        }
        lemma_opened_before(carrier, start.config.min_samples());
        lemma_phase(start, rest, threshold);
        lemma_further_sample(before, carrier, heard, magnitude, threshold);
    }
    lemma_settled(next, carrier, heard + more);
    assert(before.sliced(magnitude, threshold) == if next.gap_reached() {
        (next.flushed().0, more + next.flushed().1)
    } else {
        (next, more)
    }) by {
        reveal(Listening::sliced);
    }
    assert(heard + (more + next.flushed().1) =~= (heard + more) + next.flushed().1);
}

/// Where the first run was no short mark, it was none a sample earlier.
proof fn lemma_opened_before(carrier: Seq<bool>, min_samples: int)
    requires
        carrier.len() > 0,
        opened(carrier, min_samples),
    ensures
        opened(carrier.drop_last(), min_samples),
{
    lemma_stretches_prefix(carrier);
    round_trip::last_stretch(carrier);
    if runs::stretches(carrier.drop_last()).len() >= 2 {
        assert(runs::stretches(carrier.drop_last())[0] == runs::stretches(carrier)[0]);
    }
}

/// Slicing a live stream finds the bursts that a recording of it holds.
///
/// The samples are sliced at a fixed threshold, one by one, with no more than
/// one run of lookahead. The timings that come out, together with what is
/// still in progress when the recording ends, are those of the offline path:
/// the whole envelope sliced into runs, and the runs split into bursts.
///
/// It takes settings under which samples and microseconds agree, a recording
/// that does not begin with a glitch (the offline path has no earlier run to
/// charge that one to, the live one has), and no burst that is full when the
/// silence after it comes in pieces.
pub proof fn streaming_is_offline(start: Listening, mags: Seq<u16>, threshold: u16)
    requires
        regular(start.config),
        fresh(start),
        0 < mags.len() < usize::MAX,
        !begins_with_a_glitch(runs::slice(mags, threshold), start.config.min_samples()),
        forall|k: int|
            0 <= k < mags.len() ==> !crowded(
                #[trigger] sliced_all(start, mags.take(k), threshold).0.extended(
                    mags[k],
                    threshold,
                ).0,
            ),
    ensures
        ({
            let (state, heard) = sliced_all(start, mags, threshold);
            detector::timings_of(heard + drained(state).1) == bursts::bursts_of(
                runs::runs_of(
                    mags,
                    threshold,
                    start.config.sample_rate,
                    start.config.min_us,
                ),
                start.config.gap_us,
                start.config.min_edges,
            )
        }),
{
    let config = start.config;
    let carrier = runs::slice(mags, threshold);
    let stretches = runs::stretches(carrier);
    let (state, heard) = sliced_all(start, mags, threshold);
    lemma_phase(start, mags, threshold);
    lemma_completed(state, carrier, heard);
    let (completed, more) = state.completed();
    let runs = runs::folded(stretches, config.min_samples(), config.sample_rate);
    runs::stretch_bound(carrier);
    assert(runs == runs::runs_of(mags, threshold, config.sample_rate, config.min_us)) by {
        let floor = runs::shortest(config.min_us, config.sample_rate);
        assert forall|k: int| 0 <= k < stretches.len() implies (#[trigger] stretches[k].1
            < config.min_samples()) == (stretches[k].1 < floor) by {}
        lemma_same_folding(stretches, config.min_samples(), floor, config.sample_rate);
    }
    let (flushed, last) = completed.flushed();
    assert(heard + (more + last) =~= (heard + more) + last);
    lemma_bursts_of(config, runs);
    if resting(completed, runs, heard + more) {
        lemma_resting_flushed(completed, runs, heard + more);
    } else {
        lemma_drained(completed, runs, heard + more);
    }
}

} // verus!
