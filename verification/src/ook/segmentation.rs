//! From samples to stretches, runs and bursts, rule by rule.

use vstd::prelude::*;

use crate::ook::bursts;
use crate::ook::bursts::Gathering;
use crate::ook::clock;
use crate::ook::runs;
use crate::ook::runs::Run;

verus! {

/// The carrier is on where a sample reaches the threshold.
pub proof fn carriers_reach_the_threshold(mags: Seq<u16>, threshold: u16)
    ensures
        runs::slice(mags, threshold).len() == mags.len(),
        forall|k: int|
            0 <= k < mags.len() ==> (#[trigger] runs::slice(mags, threshold)[k] <==> mags[k]
                >= threshold),
{
}

/// Stretches, sample by sample.
pub open spec fn spelled_out(stretches: Seq<(bool, nat)>) -> Seq<bool>
    decreases stretches.len(),
{
    if stretches.len() == 0 {
        Seq::empty()
    } else {
        spelled_out(stretches.drop_last()) + Seq::new(
            stretches.last().1,
            |k: int| stretches.last().0,
        )
    }
}

/// Stretches are the samples, cut where the carrier changes and nowhere else:
/// together they are all the samples in order, none is empty, and no two of the
/// same kind follow each other.
pub proof fn stretches_are_cut_at_changes(carrier: Seq<bool>)
    ensures
        ({
            let stretches = runs::stretches(carrier);
            &&& spelled_out(stretches) == carrier
            &&& forall|k: int| 0 <= k < stretches.len() ==> (#[trigger] stretches[k]).1 > 0
            &&& forall|k: int|
                #![trigger stretches[k]]
                1 <= k < stretches.len() ==> stretches[k].0 != stretches[k - 1].0
        }),
    decreases carrier.len(),
{
    let all = runs::stretches(carrier);
    if carrier.len() == 0 {
        assert(spelled_out(all) =~= carrier);
    } else {
        let rest = carrier.drop_last();
        let before = runs::stretches(rest);
        let on = carrier.last();
        stretches_are_cut_at_changes(rest);
        assert(rest.push(on) =~= carrier);
        if before.len() > 0 && before.last().0 == on {
            let head = before.drop_last();
            let count = before.last().1;
            assert(all.drop_last() =~= head);
            assert(spelled_out(before) == spelled_out(head) + Seq::new(count, |k: int| on)) by {
                assert(Seq::new(before.last().1, |k: int| before.last().0) =~= Seq::new(
                    count,
                    |k: int| on,
                ));
            }
            assert(spelled_out(all) =~= rest.push(on));
        } else {
            assert(all.drop_last() =~= before);
            assert(spelled_out(all) =~= rest.push(on));
        }
        assert forall|k: int| 0 <= k < all.len() implies (#[trigger] all[k]).1 > 0 by {
            if k < before.len() {
                assert(before[k].1 > 0);
            }
        }
        assert forall|k: int| #![trigger all[k]] 1 <= k < all.len() implies all[k].0 != all[k
            - 1].0 by {
            if k < before.len() {
                assert(before[k].0 != before[k - 1].0);
            }
        }
    }
}

/// One stretch more: where it is shorter than the floor, or of the same kind as
/// the last run, that run lasts so much longer, and otherwise it is a run of
/// its own. The first stretch is always one.
pub proof fn stretches_become_runs(
    stretches: Seq<(bool, nat)>,
    stretch: (bool, nat),
    min_samples: int,
    sample_rate: u32,
)
    ensures
        ({
            let before = runs::folded(stretches, min_samples, sample_rate);
            let after = runs::folded(stretches.push(stretch), min_samples, sample_rate);
            let us = clock::run_us(stretch.1, sample_rate);
            if before.len() > 0 && (stretch.1 < min_samples || before.last().on == stretch.0) {
                &&& after.len() == before.len()
                &&& after.drop_last() == before.drop_last()
                &&& after.last().on == before.last().on
                &&& before.last().us >= 0 && before.last().us + us <= i64::MAX ==> after.last().us
                    == before.last().us + us
            } else {
                &&& after.len() == before.len() + 1
                &&& after.drop_last() == before
                &&& after.last().on == stretch.0
                &&& after.last().us == us
            }
        }),
{
    let before = runs::folded(stretches, min_samples, sample_rate);
    let after = runs::folded(stretches.push(stretch), min_samples, sample_rate);
    assert(stretches.push(stretch).drop_last() =~= stretches);
    clock::run_us_bounds(stretch.1, sample_rate);
    if after.len() == before.len() {
        assert(after.drop_last() =~= before.drop_last());
    } else {
        assert(after.drop_last() =~= before);
    }
}

/// Trimming takes the spaces off the end, all of them and nothing else.
pub proof fn trimming_takes_spaces_off(timings: Seq<i64>)
    ensures
        ({
            let kept = bursts::trimmed(timings);
            &&& kept.len() <= timings.len()
            &&& kept == timings.take(kept.len() as int)
            &&& kept.len() > 0 ==> kept.last() >= 0
            &&& forall|k: int|
                kept.len() <= k < timings.len() ==> #[trigger] timings[k] < 0
        }),
    decreases timings.len(),
{
    if timings.len() > 0 && timings.last() < 0 {
        let rest = timings.drop_last();
        trimming_takes_spaces_off(rest);
        let kept = bursts::trimmed(timings);
        assert(rest.take(kept.len() as int) =~= timings.take(kept.len() as int));
        assert forall|k: int| kept.len() <= k < timings.len() implies #[trigger] timings[k] < 0 by {
            if k < rest.len() {
                assert(rest[k] == timings[k]);
            }
        }
    } else {
        assert(timings.take(timings.len() as int) =~= timings);
    }
}

/// What a run does to the burst in progress. A space as long as the gap ends
/// it: it is delivered, without the spaces at its end, where it has edges
/// enough, and nothing is in progress then. A shorter space is part of it, as a
/// negative number, but for the silence before the first mark. A mark is part
/// of it. A burst of 4096 edges takes no more: it is dropped, and counted.
pub proof fn runs_join_bursts(gathering: Gathering, run: Run)
    requires
        run.us >= 0,
    ensures
        ({
            let after = gathering.after(run);
            let given = gathering.emitted(run);
            let kept = bursts::trimmed(gathering.current);
            &&& after.gap_us == gathering.gap_us && after.min_edges == gathering.min_edges
            &&& !run.on && run.us >= gathering.gap_us ==> {
                &&& after.current.len() == 0
                &&& after.overflows == gathering.overflows
                &&& given is Some <==> kept.len() >= gathering.min_edges
                &&& given is Some ==> given == Some(kept)
            }
            &&& run.on || run.us < gathering.gap_us ==> given is None
            &&& !run.on && run.us < gathering.gap_us && gathering.current.len() == 0 ==> after
                == gathering
            &&& run.on && gathering.current.len() < 4096 ==> after.current
                == gathering.current.push(run.us) && after.overflows == gathering.overflows
            &&& !run.on && run.us < gathering.gap_us && 0 < gathering.current.len() < 4096
                ==> after.current.len() == gathering.current.len() + 1 && after.current.drop_last()
                == gathering.current && after.current.last() == -run.us && after.overflows
                == gathering.overflows
            &&& (run.on || run.us < gathering.gap_us) && gathering.current.len() >= 4096 ==> {
                &&& after.current.len() == 0
                &&& gathering.overflows < u64::MAX ==> after.overflows == gathering.overflows + 1
            }
        }),
{
    assert(gathering.current.push(bursts::signed(run)).drop_last() =~= gathering.current);
}

/// Runs without a long space among them, as signed timings.
pub open spec fn as_timings(runs: Seq<Run>) -> Seq<i64> {
    Seq::new(
        runs.len(),
        |k: int|
            if runs[k].on {
                runs[k].us
            } else {
                (-runs[k].us) as i64
            },
    )
}

/// Runs that begin with a mark, hold no space as long as the gap, and are 4096
/// at the most, are one burst: all of them, in order, but for a space at the
/// end; delivered where it has edges enough, by the end of the recording as
/// well as by a silence.
pub proof fn a_group_is_a_burst(runs: Seq<Run>, gap_us: i64, min_edges: usize)
    requires
        0 < runs.len() <= 4096,
        runs[0].on,
        forall|k: int| 0 <= k < runs.len() ==> 0 <= (#[trigger] runs[k]).us,
        forall|k: int| 0 <= k < runs.len() && !(#[trigger] runs[k]).on ==> runs[k].us < gap_us,
    ensures
        ({
            let kept = bursts::trimmed(as_timings(runs));
            let found = bursts::bursts_of(runs, gap_us, min_edges);
            &&& Gathering::start(gap_us, min_edges).after_all(runs).current == as_timings(runs)
            &&& kept.len() >= min_edges ==> found == seq![kept]
            &&& kept.len() < min_edges ==> found.len() == 0
        }),
    decreases runs.len(),
{
    lemma_group(runs, gap_us, min_edges);
    let start = Gathering::start(gap_us, min_edges);
    assert(start.emitted_all(runs) =~= Seq::<Seq<i64>>::empty());
    let kept = bursts::trimmed(as_timings(runs));
    if kept.len() >= min_edges {
        assert(start.emitted_all(runs).push(kept) =~= seq![kept]);
    }
}

proof fn lemma_group(runs: Seq<Run>, gap_us: i64, min_edges: usize)
    requires
        runs.len() <= 4096,
        runs.len() > 0 ==> runs[0].on,
        forall|k: int| 0 <= k < runs.len() ==> 0 <= (#[trigger] runs[k]).us,
        forall|k: int| 0 <= k < runs.len() && !(#[trigger] runs[k]).on ==> runs[k].us < gap_us,
    ensures
        ({
            let start = Gathering::start(gap_us, min_edges);
            let after = start.after_all(runs);
            &&& after.current == as_timings(runs)
            &&& after.gap_us == gap_us
            &&& after.min_edges == min_edges
            &&& start.emitted_all(runs).len() == 0
        }),
    decreases runs.len(),
{
    let start = Gathering::start(gap_us, min_edges);
    if runs.len() == 0 {
        assert(start.after_all(runs).current =~= as_timings(runs));
    } else {
        let rest = runs.drop_last();
        assert forall|k: int| 0 <= k < rest.len() implies 0 <= (#[trigger] rest[k]).us by {
            assert(rest[k] == runs[k]);
        }
        assert forall|k: int| 0 <= k < rest.len() && !(#[trigger] rest[k]).on implies rest[k].us
            < gap_us by {
            assert(rest[k] == runs[k]);
        }
        lemma_group(rest, gap_us, min_edges);
        let last = runs[runs.len() - 1];
        assert(0 <= last.us);
        assert(as_timings(runs) =~= as_timings(rest).push(bursts::signed(last)));
    }
}

/// What comes after a long silence starts afresh: the bursts of two recordings,
/// joined by one, are the bursts of the first and then those of the second.
pub proof fn silences_separate_bursts(
    first: Seq<Run>,
    silence: Run,
    second: Seq<Run>,
    gap_us: i64,
    min_edges: usize,
)
    requires
        !silence.on,
        silence.us >= gap_us,
    ensures
        bursts::bursts_of(first.push(silence) + second, gap_us, min_edges) == bursts::bursts_of(
            first,
            gap_us,
            min_edges,
        ) + bursts::bursts_of(second, gap_us, min_edges),
{
    let start = Gathering::start(gap_us, min_edges);
    let left = first.push(silence);
    bursts::gathering_concat(start, left, second);
    assert(left.drop_last() =~= first);
    lemma_rules_kept(start, first);
    let middle = start.after_all(left);
    lemma_overflows_aside(middle, start, second);
    let ended = bursts::bursts_of(first, gap_us, min_edges);
    assert(start.emitted_all(left) =~= ended);
    let right = bursts::bursts_of(second, gap_us, min_edges);
    assert(bursts::bursts_of(left + second, gap_us, min_edges) =~= ended + right);
}

proof fn lemma_rules_kept(gathering: Gathering, runs: Seq<Run>)
    ensures
        gathering.after_all(runs).gap_us == gathering.gap_us,
        gathering.after_all(runs).min_edges == gathering.min_edges,
    decreases runs.len(),
{
    if runs.len() > 0 {
        lemma_rules_kept(gathering, runs.drop_last());
    }
}

/// How many bursts were dropped before has no bearing on what follows.
proof fn lemma_overflows_aside(a: Gathering, b: Gathering, runs: Seq<Run>)
    requires
        a.gap_us == b.gap_us,
        a.min_edges == b.min_edges,
        a.current == b.current,
    ensures
        a.emitted_all(runs) == b.emitted_all(runs),
        a.after_all(runs).current == b.after_all(runs).current,
        a.after_all(runs).gap_us == b.after_all(runs).gap_us,
        a.after_all(runs).min_edges == b.after_all(runs).min_edges,
    decreases runs.len(),
{
    if runs.len() > 0 {
        lemma_overflows_aside(a, b, runs.drop_last());
    }
}

} // verus!
