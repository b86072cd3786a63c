//! What a burst's peak is the peak of.

use vstd::prelude::*;

use crate::ook::bursts;
use crate::ook::clock;
use crate::ook::detector;
use crate::ook::detector::{DetectorConfig, Heard, Listening};
use crate::ook::envelope;
use crate::ook::runs::Run;

verus! {

/// Where the samples lie that a detector has not let go of yet, counted from
/// the first one it heard: the burst in progress through its last mark, the
/// space that follows, the run held back, and the run in progress, one after
/// the other.
pub struct Places {
    pub burst_from: nat,
    pub burst_to: nat,
    pub pending_from: nat,
    pub run_from: nat,
    pub now: nat,
}

/// A part of a stream, from the first sample to before the last.
pub struct Span {
    pub from: nat,
    pub to: nat,
}

impl Span {
    /// The samples of this part.
    pub open spec fn samples(self, mags: Seq<u16>) -> Seq<u16> {
        mags.subrange(self.from as int, self.to as int)
    }
}

impl Places {
    /// Nothing heard yet.
    pub open spec fn start() -> Places {
        Places { burst_from: 0, burst_to: 0, pending_from: 0, run_from: 0, now: 0 }
    }

    /// Where the burst in progress lies.
    pub open spec fn burst(self) -> Span {
        Span { from: self.burst_from, to: self.burst_to }
    }

    /// The burst in progress over: where it lies, if it is delivered.
    pub open spec fn over(self, delivered: bool) -> (Places, Seq<Span>) {
        (
            Places { burst_from: self.pending_from, burst_to: self.pending_from, ..self },
            if delivered {
                seq![self.burst()]
            } else {
                Seq::empty()
            },
        )
    }

    /// The run held back handed to the burst in progress. The first mark is
    /// where a burst begins, and every further mark is where it reaches to.
    pub open spec fn given(self, state: Listening, run: Run) -> (Places, Seq<Span>) {
        let handed = Places { pending_from: self.run_from, ..self };
        if state.gathering.after(run).current.len() == 0 {
            handed.over(state.gathering.emitted(run) is Some)
        } else {
            (
                Places {
                    burst_from: if state.gathering.current.len() == 0 {
                        self.pending_from
                    } else {
                        self.burst_from
                    },
                    burst_to: if bursts::signed(run) < 0 {
                        self.burst_to
                    } else {
                        self.run_from
                    },
                    ..handed
                },
                Seq::empty(),
            )
        }
    }

    /// The run in progress completed, and another one begun.
    pub open spec fn completed(self, state: Listening) -> (Places, Seq<Span>) {
        let (handed, spans) = match state.pending {
            Some(previous) => if state.continues(previous) {
                (self, Seq::empty())
            } else {
                self.given(state, previous)
            },
            None => (self, Seq::empty()),
        };
        (Places { run_from: self.now, ..handed }, spans)
    }

    /// The run held back handed on, and the burst closed.
    pub open spec fn flushed(self, state: Listening) -> (Places, Seq<Span>) {
        match state.pending {
            Some(run) => {
                let (handed, first) = self.given(state, run);
                let (closed, second) = handed.over(state.gathering.after(run).closed() is Some);
                (closed, first + second)
            },
            None => self.over(state.gathering.closed() is Some),
        }
    }

    /// One sample more.
    pub open spec fn sliced(self, state: Listening, magnitude: u16, threshold: u16) -> (
        Places,
        Seq<Span>,
    ) {
        let next = state.extended(magnitude, threshold).0;
        let (reached, spans) = if (magnitude >= threshold) == state.on {
            (self, Seq::empty())
        } else {
            self.completed(state)
        };
        let extended = Places { now: self.now + 1, ..reached };
        if next.gap_reached() {
            let (flushed, more) = extended.flushed(next);
            (flushed, spans + more)
        } else {
            (extended, spans)
        }
    }

    /// A sample that is not sliced, for want of a threshold.
    pub open spec fn passed(self) -> Places {
        Places {
            burst_from: self.now + 1,
            burst_to: self.now + 1,
            pending_from: self.now + 1,
            run_from: self.now + 1,
            now: self.now + 1,
        }
    }
}

/// Where the bursts lie that a detector has heard.
pub open spec fn traced(config: DetectorConfig, mags: Seq<u16>) -> (Places, Seq<Span>)
    decreases mags.len(),
{
    if mags.len() == 0 {
        (Places::start(), Seq::empty())
    } else {
        let state = Listening::start(config).steps(mags.drop_last()).0;
        let (places, spans) = traced(config, mags.drop_last());
        match state.threshold {
            Some(threshold) => {
                let (next, more) = places.sliced(state, mags.last(), threshold);
                (next, spans + more)
            },
            None => (places.passed(), spans),
        }
    }
}

/// The largest magnitude of a part of a stream.
spec fn level(mags: Seq<u16>, from: nat, to: nat) -> u16 {
    envelope::largest(mags.subrange(from as int, to as int))
}

proof fn lemma_largest_concat(first: Seq<u16>, second: Seq<u16>)
    ensures
        envelope::largest(first + second) == detector::higher(
            envelope::largest(first),
            envelope::largest(second),
        ),
    decreases second.len(),
{
    if second.len() == 0 {
        assert(first + second =~= first);
    } else {
        assert((first + second).drop_last() =~= first + second.drop_last());
        lemma_largest_concat(first, second.drop_last());
    }
}

proof fn lemma_level_split(mags: Seq<u16>, from: nat, at: nat, to: nat)
    requires
        from <= at <= to <= mags.len(),
    ensures
        level(mags, from, to) == detector::higher(level(mags, from, at), level(mags, at, to)),
        level(mags, from, from) == 0,
{
    let first = mags.subrange(from as int, at as int);
    let second = mags.subrange(at as int, to as int);
    assert(mags.subrange(from as int, to as int) =~= first + second);
    assert(mags.subrange(from as int, from as int) =~= Seq::<u16>::empty());
    lemma_largest_concat(first, second);
}

proof fn lemma_level_kept(mags: Seq<u16>, magnitude: u16, from: nat, to: nat)
    requires
        from <= to <= mags.len(),
    ensures
        level(mags.push(magnitude), from, to) == level(mags, from, to),
{
    assert(mags.push(magnitude).subrange(from as int, to as int) =~= mags.subrange(
        from as int,
        to as int,
    ));
}

/// The peaks of what was heard are those of the spans, which follow each
/// other, and are over before the burst in progress.
spec fn accounted(heard: Seq<Heard>, spans: Seq<Span>, mags: Seq<u16>, before: nat) -> bool {
    &&& heard.len() == spans.len()
    &&& before <= mags.len()
    &&& forall|k: int|
        #![trigger spans[k]]
        0 <= k < spans.len() ==> spans[k].from <= spans[k].to <= before && heard[k].peak == level(
            mags,
            spans[k].from,
            spans[k].to,
        ) && (heard[k].timings.len() > 0 ==> spans[k].from < spans[k].to)
    &&& forall|i: int, j: int|
        0 <= i < j < spans.len() ==> (#[trigger] spans[i]).to <= (#[trigger] spans[j]).from
}

proof fn lemma_accounted_concat(
    heard: Seq<Heard>,
    spans: Seq<Span>,
    before: nat,
    more: Seq<Heard>,
    others: Seq<Span>,
    after: nat,
    mags: Seq<u16>,
)
    requires
        accounted(heard, spans, mags, before),
        accounted(more, others, mags, after),
        before <= after,
        forall|k: int| 0 <= k < others.len() ==> before <= (#[trigger] others[k]).from,
    ensures
        accounted(heard + more, spans + others, mags, after),
{
    let all = spans + others;
    assert forall|k: int| #![trigger all[k]] 0 <= k < all.len() implies all[k].from <= all[k].to
        <= after && (heard + more)[k].peak == level(mags, all[k].from, all[k].to) && ((heard
        + more)[k].timings.len() > 0 ==> all[k].from < all[k].to) by {
        if k < spans.len() {
            assert(all[k] == spans[k]);
        } else {
            assert(all[k] == others[k - spans.len()]);
        }
    }
    assert forall|i: int, j: int| 0 <= i < j < all.len() implies (#[trigger] all[i]).to <= (
    #[trigger] all[j]).from by {
        if j < spans.len() {
            assert(all[i] == spans[i] && all[j] == spans[j]);
        } else {
            assert(all[j] == others[j - spans.len()]);
            if i < spans.len() {
                assert(all[i] == spans[i]);
            } else {
                assert(all[i] == others[i - spans.len()]);
            }
        }
    }
}

proof fn lemma_accounted_kept(
    heard: Seq<Heard>,
    spans: Seq<Span>,
    mags: Seq<u16>,
    magnitude: u16,
    before: nat,
)
    requires
        accounted(heard, spans, mags, before),
    ensures
        accounted(heard, spans, mags.push(magnitude), before),
{
    let longer = mags.push(magnitude);
    assert forall|k: int| #![trigger spans[k]] 0 <= k < spans.len() implies spans[k].from
        <= spans[k].to <= before && heard[k].peak == level(longer, spans[k].from, spans[k].to) && (
    heard[k].timings.len() > 0 ==> spans[k].from < spans[k].to) by {
        lemma_level_kept(mags, magnitude, spans[k].from, spans[k].to);
    }
}

/// The peaks of the burst in progress and of the space after it are those of
/// their samples.
spec fn burst_held(state: Listening, places: Places, mags: Seq<u16>) -> bool {
    &&& places.burst_from <= places.burst_to <= places.pending_from <= places.run_from
        <= places.now <= mags.len()
    &&& state.burst_peak == level(mags, places.burst_from, places.burst_to)
    &&& if state.gathering.current.len() == 0 {
        places.burst_from == places.burst_to && state.tail_peak == 0
    } else {
        &&& places.burst_from < places.burst_to
        &&& state.tail_peak == level(mags, places.burst_to, places.pending_from)
    }
}

/// And so are the peaks of the run held back and of the run in progress.
spec fn held(state: Listening, places: Places, mags: Seq<u16>) -> bool {
    &&& burst_held(state, places, mags)
    &&& state.pending_peak == level(mags, places.pending_from, places.run_from)
    &&& state.run_peak == level(mags, places.run_from, places.now)
    &&& state.pending is None ==> places.pending_from == places.run_from
    &&& state.pending matches Some(run) ==> run.us >= 0 && (run.on ==> places.pending_from
        < places.run_from)
    &&& state.on ==> places.run_from < places.now
}

proof fn lemma_over(
    state: Listening,
    places: Places,
    mags: Seq<u16>,
    timings: Option<Seq<i64>>,
)
    requires
        places.burst_from <= places.burst_to <= places.pending_from <= places.run_from
            <= places.now <= mags.len(),
        state.burst_peak == level(mags, places.burst_from, places.burst_to),
        timings matches Some(list) ==> list.len() > 0 ==> places.burst_from < places.burst_to,
        state.gathering.current.len() == 0,
    ensures
        ({
            let (next, heard) = state.over(timings);
            let (moved, spans) = places.over(timings is Some);
            &&& burst_held(next, moved, mags)
            &&& moved.pending_from == places.pending_from
            &&& moved.run_from == places.run_from
            &&& moved.now == places.now
            &&& places.burst_from <= moved.burst_from
            &&& accounted(heard, spans, mags, moved.burst_from)
            &&& forall|k: int|
                0 <= k < spans.len() ==> places.burst_from <= (#[trigger] spans[k]).from
        }),
{
    lemma_level_split(mags, places.pending_from, places.pending_from, places.pending_from);
}

proof fn lemma_given(state: Listening, places: Places, mags: Seq<u16>, run: Run, peak: u16)
    requires
        burst_held(state, places, mags),
        peak == level(mags, places.pending_from, places.run_from),
        run.us >= 0,
        run.on ==> places.pending_from < places.run_from,
    ensures
        ({
            let (next, heard) = state.given(run, peak);
            let (moved, spans) = places.given(state, run);
            &&& burst_held(next, moved, mags)
            &&& moved.pending_from == places.run_from
            &&& moved.run_from == places.run_from
            &&& moved.now == places.now
            &&& places.burst_from <= moved.burst_from
            &&& accounted(heard, spans, mags, moved.burst_from)
            &&& forall|k: int|
                0 <= k < spans.len() ==> places.burst_from <= (#[trigger] spans[k]).from
        }),
{
    let gathered = Listening { gathering: state.gathering.after(run), ..state };
    let handed = Places { pending_from: places.run_from, ..places };
    if gathered.gathering.current.len() == 0 {
        lemma_over(gathered, handed, mags, state.gathering.emitted(run));
    } else if state.gathering.current.len() == 0 {
        lemma_level_split(mags, places.burst_from, places.burst_from, places.burst_from);
        lemma_level_split(mags, places.run_from, places.run_from, places.run_from);
    } else {
        lemma_level_split(mags, places.burst_to, places.pending_from, places.run_from);
        lemma_level_split(mags, places.burst_from, places.burst_to, places.run_from);
        lemma_level_split(mags, places.run_from, places.run_from, places.run_from);
    }
}

proof fn lemma_completed(state: Listening, places: Places, mags: Seq<u16>)
    requires
        held(state, places, mags),
        places.now == mags.len(),
    ensures
        ({
            let (next, heard) = state.completed();
            let (moved, spans) = places.completed(state);
            &&& burst_held(next, moved, mags)
            &&& next.pending_peak == level(mags, moved.pending_from, moved.run_from)
            &&& next.pending matches Some(run) && run.us >= 0 && (run.on ==> moved.pending_from
                < moved.run_from)
            &&& moved.run_from == places.now
            &&& moved.now == places.now
            &&& places.burst_from <= moved.burst_from
            &&& accounted(heard, spans, mags, moved.burst_from)
            &&& forall|k: int|
                0 <= k < spans.len() ==> places.burst_from <= (#[trigger] spans[k]).from
        }),
{
    let run = state.current_run();
    clock::run_us_bounds(state.run_samples as nat, state.config.sample_rate);
    match state.pending {
        Some(previous) => {
            if state.continues(previous) {
                lemma_level_split(mags, places.pending_from, places.run_from, places.now);
            } else {
                let replaced = Listening {
                    pending: Some(run),
                    pending_peak: state.run_peak,
                    ..state
                };
                lemma_given(replaced, places, mags, previous, state.pending_peak);
                assert(places.given(replaced, previous) == places.given(state, previous));
            }
        },
        None => {},
    }
}

proof fn lemma_flushed(state: Listening, places: Places, mags: Seq<u16>)
    requires
        held(state, places, mags),
    ensures
        ({
            let (next, heard) = state.flushed();
            let (moved, spans) = places.flushed(state);
            &&& held(next, moved, mags)
            &&& moved.now == places.now
            &&& places.burst_from <= moved.burst_from
            &&& accounted(heard, spans, mags, moved.burst_from)
            &&& forall|k: int|
                0 <= k < spans.len() ==> places.burst_from <= (#[trigger] spans[k]).from
        }),
{
    lemma_level_split(mags, places.run_from, places.run_from, places.run_from);
    match state.pending {
        Some(run) => {
            let free = Listening { pending: None, pending_peak: 0, ..state };
            lemma_given(free, places, mags, run, state.pending_peak);
            assert(places.given(free, run) == places.given(state, run));
            let (handed, first) = free.given(run, state.pending_peak);
            let (moved, spans) = places.given(state, run);
            let closed = handed.gathering.closed();
            lemma_over(
                Listening { gathering: handed.gathering.cleared(), ..handed },
                moved,
                mags,
                closed,
            );
            let (after, more) = handed.ended();
            let (last, others) = moved.over(closed is Some);
            lemma_accounted_concat(
                first,
                spans,
                moved.burst_from,
                more,
                others,
                last.burst_from,
                mags,
            );
        },
        None => {
            let closed = state.gathering.closed();
            lemma_over(
                Listening { gathering: state.gathering.cleared(), ..state },
                places,
                mags,
                closed,
            );
            assert(state.flushed().1 =~= state.ended().1);
        },
    }
}

proof fn lemma_sliced(
    state: Listening,
    places: Places,
    mags: Seq<u16>,
    magnitude: u16,
    threshold: u16,
)
    requires
        held(state, places, mags),
        places.now == mags.len(),
    ensures
        ({
            let (next, heard) = state.sliced(magnitude, threshold);
            let (moved, spans) = places.sliced(state, magnitude, threshold);
            let longer = mags.push(magnitude);
            &&& held(next, moved, longer)
            &&& moved.now == longer.len()
            &&& places.burst_from <= moved.burst_from
            &&& accounted(heard, spans, longer, moved.burst_from)
            &&& forall|k: int|
                0 <= k < spans.len() ==> places.burst_from <= (#[trigger] spans[k]).from
        }),
{
    reveal(Listening::sliced);
    let longer = mags.push(magnitude);
    let (next, heard) = state.extended(magnitude, threshold);
    let (reached, spans) = if (magnitude >= threshold) == state.on {
        (places, Seq::empty())
    } else {
        places.completed(state)
    };
    if (magnitude >= threshold) != state.on {
        lemma_completed(state, places, mags);
        lemma_accounted_kept(heard, spans, mags, magnitude, reached.burst_from);
    }
    let extended = Places { now: places.now + 1, ..reached };
    assert(held(next, extended, longer)) by {
        lemma_level_kept(mags, magnitude, reached.burst_from, reached.burst_to);
        lemma_level_kept(mags, magnitude, reached.burst_to, reached.pending_from);
        lemma_level_kept(mags, magnitude, reached.pending_from, reached.run_from);
        lemma_level_kept(mags, magnitude, reached.run_from, places.now);
        lemma_level_split(longer, reached.run_from, places.now, places.now + 1);
        lemma_level_split(longer, places.now, places.now, places.now);
        assert(longer.subrange(places.now as int, (places.now + 1) as int) =~= seq![magnitude]);
        assert(seq![magnitude].drop_last() =~= Seq::<u16>::empty());
        assert(envelope::largest(Seq::<u16>::empty()) == 0);
    }
    if next.gap_reached() {
        lemma_flushed(next, extended, longer);
        let (after, more) = next.flushed();
        let (moved, others) = extended.flushed(next);
        lemma_accounted_concat(
            heard,
            spans,
            reached.burst_from,
            more,
            others,
            moved.burst_from,
            longer,
        );
    }
}

/// Without a threshold nothing is held.
spec fn deaf(state: Listening) -> bool {
    &&& state.threshold is None
    &&& !state.on
    &&& state.pending is None
    &&& state.gathering.current.len() == 0
    &&& state.run_peak == 0
    &&& state.pending_peak == 0
    &&& state.burst_peak == 0
    &&& state.tail_peak == 0
}

/// What is known of a stream, between two samples.
spec fn followed(
    state: Listening,
    heard: Seq<Heard>,
    places: Places,
    spans: Seq<Span>,
    mags: Seq<u16>,
) -> bool {
    &&& held(state, places, mags)
    &&& places.now == mags.len()
    &&& accounted(heard, spans, mags, places.burst_from)
    &&& state.threshold is None ==> deaf(state)
}

proof fn lemma_followed(
    state: Listening,
    heard: Seq<Heard>,
    places: Places,
    spans: Seq<Span>,
    mags: Seq<u16>,
    magnitude: u16,
    threshold: u16,
)
    requires
        followed(state, heard, places, spans, mags),
        state.threshold == Some(threshold),
    ensures
        ({
            let (next, more) = state.step(magnitude);
            let (moved, others) = places.sliced(state, magnitude, threshold);
            followed(next, heard + more, moved, spans + others, mags.push(magnitude))
        }),
{
    let counted = Listening {
        tally: state.tally.with(magnitude),
        seen: state.seen + 1,
        ..state
    };
    let longer = mags.push(magnitude);
    lemma_sliced(counted, places, mags, magnitude, threshold);
    detector::slicing_keeps_the_window(counted, magnitude, threshold);
    lemma_places_alike(counted, state, places, magnitude, threshold);
    let (moved, others) = places.sliced(state, magnitude, threshold);
    lemma_accounted_kept(heard, spans, mags, magnitude, places.burst_from);
    lemma_accounted_concat(
        heard,
        spans,
        places.burst_from,
        counted.sliced(magnitude, threshold).1,
        others,
        moved.burst_from,
        longer,
    );
}

proof fn lemma_passed(
    state: Listening,
    heard: Seq<Heard>,
    places: Places,
    spans: Seq<Span>,
    mags: Seq<u16>,
    magnitude: u16,
)
    requires
        followed(state, heard, places, spans, mags),
        state.threshold is None,
    ensures
        state.step(magnitude).1.len() == 0,
        followed(
            state.step(magnitude).0,
            heard,
            places.passed(),
            spans,
            mags.push(magnitude),
        ),
{
    let longer = mags.push(magnitude);
    lemma_level_split(longer, longer.len(), longer.len(), longer.len());
    lemma_accounted_kept(heard, spans, mags, magnitude, places.burst_from);
}

proof fn lemma_traced(config: DetectorConfig, mags: Seq<u16>)
    ensures
        followed(
            Listening::start(config).steps(mags).0,
            Listening::start(config).steps(mags).1,
            traced(config, mags).0,
            traced(config, mags).1,
            mags,
        ),
    decreases mags.len(),
{
    if mags.len() == 0 {
        assert(mags =~= Seq::<u16>::empty());
        lemma_level_split(mags, 0, 0, 0);
    } else {
        let rest = mags.drop_last();
        let magnitude = mags.last();
        lemma_traced(config, rest);
        let (state, heard) = Listening::start(config).steps(rest);
        let (places, spans) = traced(config, rest);
        assert(rest.push(magnitude) =~= mags);
        match state.threshold {
            Some(threshold) => {
                lemma_followed(state, heard, places, spans, rest, magnitude, threshold);
            },
            None => {
                lemma_passed(state, heard, places, spans, rest, magnitude);
                assert(heard + state.step(magnitude).1 =~= heard);
            },
        }
    }
}

/// Where the samples lie does not depend on the window.
proof fn lemma_places_alike(
    a: Listening,
    b: Listening,
    places: Places,
    magnitude: u16,
    threshold: u16,
)
    requires
        a == (Listening { tally: a.tally, seen: a.seen, ..b }),
    ensures
        places.sliced(a, magnitude, threshold) == places.sliced(b, magnitude, threshold),
{
    let (c, _) = a.extended(magnitude, threshold);
    let (d, _) = b.extended(magnitude, threshold);
    assert(c == (Listening { tally: c.tally, seen: c.seen, ..d }));
}

/// A burst's peak is the largest magnitude among its own samples, from the
/// first of its first mark to the last of its last mark: nothing before it,
/// nothing after it, and nothing of a burst that was dropped counts. The
/// bursts lie one after the other.
pub proof fn peaks_are_the_bursts_own(config: DetectorConfig, mags: Seq<u16>)
    ensures
        ({
            let heard = Listening::start(config).steps(mags).1;
            let spans = traced(config, mags).1;
            &&& heard.len() == spans.len()
            &&& forall|k: int|
                #![trigger spans[k]]
                0 <= k < spans.len() ==> spans[k].from <= spans[k].to <= mags.len()
                    && heard[k].peak == envelope::largest(spans[k].samples(mags)) && (
                heard[k].timings.len() > 0 ==> spans[k].samples(mags).len() > 0)
            &&& forall|i: int, j: int|
                0 <= i < j < spans.len() ==> (#[trigger] spans[i]).to <= (#[trigger] spans[j]).from
        }),
{
    lemma_traced(config, mags);
}

/// Every burst comes with an amplitude that a sample can have.
pub proof fn peaks_are_amplitudes(config: DetectorConfig, iq: Seq<u8>)
    ensures
        ({
            let heard = Listening::start(config).steps(envelope::magnitudes(iq)).1;
            forall|k: int| 0 <= k < heard.len() ==> (#[trigger] heard[k]).peak <= 256
        }),
{
    let mags = envelope::magnitudes(iq);
    let heard = Listening::start(config).steps(mags).1;
    let spans = traced(config, mags).1;
    peaks_are_the_bursts_own(config, mags);
    assert forall|k: int| 0 <= k < heard.len() implies (#[trigger] heard[k]).peak <= 256 by {
        let part = spans[k].samples(mags);
        assert forall|j: int| 0 <= j < part.len() implies #[trigger] part[j] <= 256 by {
            assert(part[j] == mags[spans[k].from + j]);
        }
        envelope::largest_is_attained(part);
    }
}

} // verus!
