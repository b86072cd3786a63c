//! Slicing an envelope into marks and spaces.

use vstd::prelude::*;

use crate::float;
use crate::float::Float;
use crate::ook::clock;

verus! {

/// A contiguous run of carrier-on (mark) or carrier-off (space).
#[derive(Debug, Clone, Copy, PartialEq, Eq, Structural)]
pub struct Run {
    pub on: bool,
    pub us: i64,
}

/// Whether the carrier is on, sample by sample.
pub open spec fn slice(mag: Seq<u16>, threshold: u16) -> Seq<bool> {
    mag.map_values(|m: u16| m >= threshold)
}

/// The maximal stretches of equal samples, with their lengths.
pub open spec fn stretches(carrier: Seq<bool>) -> Seq<(bool, nat)>
    decreases carrier.len(),
{
    if carrier.len() == 0 {
        Seq::empty()
    } else {
        let before = stretches(carrier.drop_last());
        let on = carrier.last();
        if before.len() > 0 && before.last().0 == on {
            before.drop_last().push((on, before.last().1 + 1))
        } else {
            before.push((on, 1))
        }
    }
}

/// No stretch is longer than all of the samples.
pub proof fn stretch_bound(carrier: Seq<bool>)
    ensures
        forall|k: int|
            0 <= k < stretches(carrier).len() ==> (#[trigger] stretches(carrier)[k]).1
                <= carrier.len(),
    decreases carrier.len(),
{
    if carrier.len() > 0 {
        let before = stretches(carrier.drop_last());
        let after = stretches(carrier);
        stretch_bound(carrier.drop_last());
        assert forall|k: int| 0 <= k < after.len() implies (#[trigger] after[k]).1
            <= carrier.len() by {
            if k < before.len() {
                assert(before[k].1 <= carrier.len() - 1);
            }
        }
    }
}

/// The shortest stretch, in samples, that counts as a run of its own.
pub open spec fn shortest(min_us: u32, sample_rate: u32) -> int {
    clock::at_least_one(float::from_nat(min_us as nat), sample_rate, usize::MAX as int)
}

/// The runs so far, extended by one stretch: a glitch is charged to the run
/// it interrupted, and a stretch of the same polarity continues that run.
pub open spec fn with_stretch(
    out: Seq<Run>,
    stretch: (bool, nat),
    min_samples: int,
    sample_rate: u32,
) -> Seq<Run> {
    let us = clock::run_us(stretch.1, sample_rate) as i64;
    if out.len() > 0 && (stretch.1 < min_samples || out.last().on == stretch.0) {
        out.drop_last().push(
            Run { on: out.last().on, us: clock::extended(out.last().us, us) },
        )
    } else {
        out.push(Run { on: stretch.0, us })
    }
}

/// The runs that some stretches make.
pub open spec fn folded(stretches: Seq<(bool, nat)>, min_samples: int, sample_rate: u32) -> Seq<Run>
    decreases stretches.len(),
{
    if stretches.len() == 0 {
        Seq::empty()
    } else {
        with_stretch(
            folded(stretches.drop_last(), min_samples, sample_rate),
            stretches.last(),
            min_samples,
            sample_rate,
        )
    }
}

/// The runs of an envelope sliced at a threshold.
pub open spec fn runs_of(mag: Seq<u16>, threshold: u16, sample_rate: u32, min_us: u32) -> Seq<
    Run,
> {
    folded(stretches(slice(mag, threshold)), shortest(min_us, sample_rate), sample_rate)
}

/// Marks and spaces take turns.
pub open spec fn alternates(runs: Seq<Run>) -> bool {
    forall|k: int| #![trigger runs[k]] 1 <= k < runs.len() ==> runs[k].on != runs[k - 1].on
}

/// Whatever is folded, the runs that come out take turns.
pub proof fn folded_alternates(stretches: Seq<(bool, nat)>, min_samples: int, sample_rate: u32)
    ensures
        alternates(folded(stretches, min_samples, sample_rate)),
    decreases stretches.len(),
{
    if stretches.len() > 0 {
        let before = folded(stretches.drop_last(), min_samples, sample_rate);
        let after = folded(stretches, min_samples, sample_rate);
        folded_alternates(stretches.drop_last(), min_samples, sample_rate);
        assert forall|k: int| #![trigger after[k]] 1 <= k < after.len() implies after[k].on
            != after[k - 1].on by {
            if k < before.len() {
                assert(before[k].on != before[k - 1].on);
            }
        }
    }
}

/// Whatever is folded, no run lasts a negative time.
pub proof fn folded_lasts(stretches: Seq<(bool, nat)>, min_samples: int, sample_rate: u32)
    ensures
        forall|k: int|
            0 <= k < folded(stretches, min_samples, sample_rate).len() ==> (#[trigger] folded(
                stretches,
                min_samples,
                sample_rate,
            )[k]).us >= 0,
    decreases stretches.len(),
{
    if stretches.len() > 0 {
        let before = folded(stretches.drop_last(), min_samples, sample_rate);
        let after = folded(stretches, min_samples, sample_rate);
        folded_lasts(stretches.drop_last(), min_samples, sample_rate);
        clock::run_us_bounds(stretches.last().1, sample_rate);
        assert forall|k: int| 0 <= k < after.len() implies (#[trigger] after[k]).us >= 0 by {
            if k < before.len() {
                assert(before[k].us >= 0);
            }
        }
    }
}

/// How long some runs last together.
pub open spec fn lasted(runs: Seq<Run>) -> int
    decreases runs.len(),
{
    if runs.len() == 0 {
        0
    } else {
        lasted(runs.drop_last()) + runs.last().us
    }
}

/// How long some stretches last together, each rounded to a microsecond.
pub open spec fn stretched(stretches: Seq<(bool, nat)>, sample_rate: u32) -> int
    decreases stretches.len(),
{
    if stretches.len() == 0 {
        0
    } else {
        stretched(stretches.drop_last(), sample_rate) + clock::run_us(
            stretches.last().1,
            sample_rate,
        )
    }
}

/// A glitch's duration is charged to another run, not lost.
pub proof fn folding_keeps_time(stretches: Seq<(bool, nat)>, min_samples: int, sample_rate: u32)
    requires
        stretched(stretches, sample_rate) <= i64::MAX,
    ensures
        lasted(folded(stretches, min_samples, sample_rate)) == stretched(stretches, sample_rate),
        lasted(folded(stretches, min_samples, sample_rate)) >= 0,
    decreases stretches.len(),
{
    if stretches.len() > 0 {
        let before = folded(stretches.drop_last(), min_samples, sample_rate);
        let after = folded(stretches, min_samples, sample_rate);
        clock::run_us_bounds(stretches.last().1, sample_rate);
        folding_keeps_time(stretches.drop_last(), min_samples, sample_rate);
        folded_lasts(stretches.drop_last(), min_samples, sample_rate);
        if before.len() > 0 && after.len() == before.len() {
            assert(after.drop_last() =~= before.drop_last());
            assert(before[before.len() - 1].us >= 0);
            lemma_lasted_parts(before);
        } else {
            assert(after.drop_last() =~= before);
        }
    }
}

proof fn lemma_lasted(runs: Seq<Run>)
    ensures
        (forall|k: int| 0 <= k < runs.len() ==> (#[trigger] runs[k]).us >= 0) ==> lasted(runs) >= 0,
    decreases runs.len(),
{
    if runs.len() > 0 {
        lemma_lasted(runs.drop_last());
        if forall|k: int| 0 <= k < runs.len() ==> (#[trigger] runs[k]).us >= 0 {
            assert forall|k: int| 0 <= k < runs.len() - 1 implies (
            #[trigger] runs.drop_last()[k]).us >= 0 by {
                assert(runs[k].us >= 0);
            }
            assert(runs[runs.len() - 1].us >= 0);
        }
    }
}

/// No run lasts longer than all of them.
proof fn lemma_lasted_parts(runs: Seq<Run>)
    requires
        runs.len() > 0,
        forall|k: int| 0 <= k < runs.len() ==> (#[trigger] runs[k]).us >= 0,
    ensures
        0 <= runs.last().us <= lasted(runs),
{
    assert forall|k: int| 0 <= k < runs.len() - 1 implies (#[trigger] runs.drop_last()[k]).us
        >= 0 by {
        assert(runs[k].us >= 0);
    }
    lemma_lasted(runs.drop_last());
    assert(runs[runs.len() - 1].us >= 0);
}

fn push_run(out: &mut Vec<Run>, on: bool, len: usize, min_samples: usize, sample_rate: u32)
    ensures
        final(out)@ == with_stretch(old(out)@, (on, len as nat), min_samples as int, sample_rate),
{
    let us: i64 = clock::run_duration(len as u64, sample_rate);
    let count: usize = out.len();
    if count > 0 && (len < min_samples || out[count - 1].on == on) {
        // Too short to be a real symbol, or the continuation of a run that a
        // glitch interrupted: without coalescing, the timings would stop
        // alternating and every consumer would misread the frame.
        let previous: Run = out[count - 1];
        out[count - 1] = Run { on: previous.on, us: clock::extend(previous.us, us) };
        assert(out@ =~= with_stretch(
            old(out)@,
            (on, len as nat),
            min_samples as int,
            sample_rate,
        ));
    } else {
        out.push(Run { on, us });
    }
}

/// Slice the envelope into alternating mark/space runs.
///
/// Runs shorter than `min_us` are treated as glitches and folded into the run
/// they interrupted.
pub fn runs(mag: &[u16], threshold: u16, sample_rate: u32, min_us: u32) -> (result: Vec<Run>)
    ensures
        result@ == runs_of(mag@, threshold, sample_rate, min_us),
        alternates(result@),
        forall|k: int| 0 <= k < result@.len() ==> (#[trigger] result@[k]).us >= 0,
{
    let mut out: Vec<Run> = Vec::new();
    let ghost carrier = slice(mag@, threshold);
    if mag.len() == 0 {
        return out;
    }
    let rounded: usize = Float::from_u64(min_us as u64).over(
        clock::sample_duration(sample_rate),
    ).round_to_usize();
    let min_samples: usize = if rounded < 1 {
        1
    } else {
        rounded
    };
    let mut current_on: bool = mag[0] >= threshold;
    let mut len: usize = 1;
    let ghost mut done: Seq<(bool, nat)> = Seq::empty();
    proof {
        assert(carrier.take(1).drop_last() == Seq::<bool>::empty());
        assert(stretches(carrier.take(1).drop_last()) == done);
        assert(stretches(carrier.take(1)) == done.push((current_on, 1)));
    }
    for k in 1..mag.len()
        invariant
            carrier == slice(mag@, threshold),
            1 <= len <= k,
            min_samples == shortest(min_us, sample_rate),
            stretches(carrier.take(k as int)) == done.push((current_on, len as nat)),
            out@ == folded(done, min_samples as int, sample_rate),
    {
        let on: bool = mag[k] >= threshold;
        assert(carrier.take(k + 1).drop_last() == carrier.take(k as int));
        if on == current_on {
            len = len + 1;
            assert(done.push((current_on, (len - 1) as nat)).drop_last() == done);
        } else {
            push_run(&mut out, current_on, len, min_samples, sample_rate);
            proof {
                assert(done.push((current_on, len as nat)).drop_last() == done);
                done = done.push((current_on, len as nat));
            }
            current_on = on;
            len = 1;
        }
    }
    push_run(&mut out, current_on, len, min_samples, sample_rate);
    proof {
        assert(carrier.take(mag@.len() as int) == carrier);
        assert(done.push((current_on, len as nat)).drop_last() == done);
        folded_alternates(stretches(carrier), min_samples as int, sample_rate);
        folded_lasts(stretches(carrier), min_samples as int, sample_rate);
    }
    out
}

} // verus!
