//! Assembling runs into bursts.

use vstd::prelude::*;

use crate::ook::runs::Run;

verus! {

/// Ceiling on edges held for one burst, so a jammed band cannot grow the
/// buffer without bound. A Proflame frame is 364 symbols; this is ample.
pub const MAX_BURST_EDGES: usize = 4096;

/// Assembles completed runs into bursts, splitting on spaces of at least
/// `gap_us`.
///
/// Shared by the offline splitter and the streaming detector so the two
/// cannot drift apart: burst boundaries, the minimum edge count and the
/// trailing-space rule are defined once, here.
///
/// A burst always ends on a mark. This is a property of OOK, not of this
/// code: a frame's final space has no terminating edge, so it merges
/// indistinguishably into the silence that follows. A frame whose last symbol
/// is a space can only be recovered by padding it out from the known symbol
/// clock, which is a job for the protocol decoder, not the demodulator.
#[derive(Debug, Clone)]
pub struct BurstAccumulator {
    gap_us: i64,
    min_edges: usize,
    current: Vec<i64>,
    overflows: u64,
}

/// A burst in progress, and the rules it is gathered by.
pub struct Gathering {
    pub gap_us: i64,
    pub min_edges: usize,
    pub current: Seq<i64>,
    pub overflows: u64,
}

/// A run as a signed timing.
pub open spec fn signed(run: Run) -> i64 {
    if run.on {
        run.us
    } else {
        (-run.us) as i64
    }
}

/// Timings without the spaces at their end.
pub open spec fn trimmed(timings: Seq<i64>) -> Seq<i64>
    decreases timings.len(),
{
    if timings.len() > 0 && timings.last() < 0 {
        trimmed(timings.drop_last())
    } else {
        timings
    }
}

impl Gathering {
    /// Nothing gathered yet.
    pub open spec fn start(gap_us: i64, min_edges: usize) -> Gathering {
        Gathering { gap_us, min_edges, current: Seq::empty(), overflows: 0 }
    }

    /// Whether a run is a space long enough to end a burst.
    pub open spec fn ends(self, run: Run) -> bool {
        !run.on && run.us >= self.gap_us
    }

    /// Whether a run is part of a burst rather than the silence before one.
    pub open spec fn continues(self, run: Run) -> bool {
        run.on || self.current.len() > 0
    }

    /// Whether the run, if it joins the burst, has a signed timing.
    pub open spec fn accepts(self, run: Run) -> bool {
        self.ends(run) || !self.continues(run) || run.on || run.us > i64::MIN
    }

    /// The burst that closing now would give.
    pub open spec fn closed(self) -> Option<Seq<i64>> {
        if trimmed(self.current).len() >= self.min_edges {
            Some(trimmed(self.current))
        } else {
            None
        }
    }

    /// The state once the burst in progress is closed.
    pub open spec fn cleared(self) -> Gathering {
        Gathering { current: Seq::empty(), ..self }
    }

    /// The burst that a run completes.
    pub open spec fn emitted(self, run: Run) -> Option<Seq<i64>> {
        if self.ends(run) {
            self.closed()
        } else {
            None
        }
    }

    /// The state after a run.
    pub open spec fn after(self, run: Run) -> Gathering {
        if self.ends(run) {
            self.cleared()
        } else if !self.continues(run) {
            self
        } else if self.current.len() >= MAX_BURST_EDGES {
            Gathering {
                overflows: if self.overflows < u64::MAX {
                    (self.overflows + 1) as u64
                } else {
                    u64::MAX
                },
                ..self.cleared()
            }
        } else {
            Gathering { current: self.current.push(signed(run)), ..self }
        }
    }

    /// The state after some runs.
    pub open spec fn after_all(self, runs: Seq<Run>) -> Gathering
        decreases runs.len(),
    {
        if runs.len() == 0 {
            self
        } else {
            self.after_all(runs.drop_last()).after(runs.last())
        }
    }

    /// The bursts that some runs complete.
    pub open spec fn emitted_all(self, runs: Seq<Run>) -> Seq<Seq<i64>>
        decreases runs.len(),
    {
        if runs.len() == 0 {
            Seq::empty()
        } else {
            let before = self.emitted_all(runs.drop_last());
            match self.after_all(runs.drop_last()).emitted(runs.last()) {
                Some(burst) => before.push(burst),
                None => before,
            }
        }
    }

    /// Whether every one of some runs is accepted in its turn.
    pub open spec fn accepts_all(self, runs: Seq<Run>) -> bool {
        forall|k: int|
            0 <= k < runs.len() ==> self.after_all(runs.take(k)).accepts(#[trigger] runs[k])
    }

    /// What holds of every burst in progress: it begins with a mark, its
    /// spaces are shorter than the gap, and it stays within the ceiling.
    pub open spec fn sound(self) -> bool {
        &&& self.current.len() <= MAX_BURST_EDGES
        &&& self.current.len() > 0 ==> self.current[0] > 0
        &&& forall|k: int|
            0 <= k < self.current.len() && #[trigger] self.current[k] < 0 ==> -self.current[k]
                < self.gap_us
        &&& forall|k: int| 0 <= k < self.current.len() ==> #[trigger] self.current[k] != 0
    }
}

/// The bursts of some runs, the last one closed by the end of the recording.
pub open spec fn bursts_of(runs: Seq<Run>, gap_us: i64, min_edges: usize) -> Seq<Seq<i64>> {
    let start = Gathering::start(gap_us, min_edges);
    match start.after_all(runs).closed() {
        Some(burst) => start.emitted_all(runs).push(burst),
        None => start.emitted_all(runs),
    }
}

/// What a well-formed burst looks like: it begins and ends with a mark, its
/// spaces are shorter than the gap, and its edges are within the bounds.
pub open spec fn is_burst(timings: Seq<i64>, gap_us: i64, min_edges: usize) -> bool {
    &&& min_edges <= timings.len() <= MAX_BURST_EDGES
    &&& timings.len() > 0 ==> timings[0] > 0 && timings.last() > 0
    &&& forall|k: int|
        0 <= k < timings.len() && #[trigger] timings[k] < 0 ==> -timings[k] < gap_us
}

/// The contents of a list of bursts.
pub open spec fn contents(bursts: Seq<Vec<i64>>) -> Seq<Seq<i64>> {
    bursts.map_values(|burst: Vec<i64>| burst@)
}

proof fn lemma_trimmed(timings: Seq<i64>)
    ensures
        trimmed(timings).len() <= timings.len(),
        trimmed(timings) == timings.take(trimmed(timings).len() as int),
        trimmed(timings).len() > 0 ==> trimmed(timings).last() >= 0,
    decreases timings.len(),
{
    if timings.len() > 0 && timings.last() < 0 {
        lemma_trimmed(timings.drop_last());
        assert(timings.drop_last().take(trimmed(timings).len() as int) == timings.take(
            trimmed(timings).len() as int,
        ));
    } else {
        assert(timings.take(timings.len() as int) == timings);
    }
}

/// Runs that last keep a gathering sound, and what they complete is a
/// well-formed burst.
proof fn lemma_sound_step(gathering: Gathering, run: Run)
    requires
        gathering.sound(),
        run.us > 0,
    ensures
        gathering.after(run).sound(),
        gathering.after(run).gap_us == gathering.gap_us,
        gathering.after(run).min_edges == gathering.min_edges,
        gathering.closed() matches Some(burst) ==> is_burst(
            burst,
            gathering.gap_us,
            gathering.min_edges,
        ),
{
    lemma_trimmed(gathering.current);
    let burst = trimmed(gathering.current);
    if burst.len() > 0 {
        assert(burst[0] == gathering.current[0]);
        assert(burst.last() == gathering.current[burst.len() - 1]);
        assert forall|k: int| 0 <= k < burst.len() && #[trigger] burst[k] < 0 implies -burst[k]
            < gathering.gap_us by {
            assert(burst[k] == gathering.current[k]);
        }
    }
    let next = gathering.after(run);
    if next.current.len() == gathering.current.len() + 1 {
        assert forall|k: int| 0 <= k < next.current.len() && #[trigger] next.current[k]
            < 0 implies -next.current[k] < next.gap_us by {
            if k < gathering.current.len() {
                assert(next.current[k] == gathering.current[k]);
            }
        }
        assert forall|k: int| 0 <= k < next.current.len() implies #[trigger] next.current[k]
            != 0 by {
            if k < gathering.current.len() {
                assert(next.current[k] == gathering.current[k]);
            }
        }
    }
}

proof fn lemma_sound_all(gathering: Gathering, runs: Seq<Run>)
    requires
        gathering.sound(),
        forall|k: int| 0 <= k < runs.len() ==> (#[trigger] runs[k]).us > 0,
    ensures
        gathering.after_all(runs).sound(),
        gathering.after_all(runs).gap_us == gathering.gap_us,
        gathering.after_all(runs).min_edges == gathering.min_edges,
        forall|b: int|
            0 <= b < gathering.emitted_all(runs).len() ==> is_burst(
                #[trigger] gathering.emitted_all(runs)[b],
                gathering.gap_us,
                gathering.min_edges,
            ),
    decreases runs.len(),
{
    if runs.len() > 0 {
        let before = runs.drop_last();
        assert forall|k: int| 0 <= k < before.len() implies (#[trigger] before[k]).us > 0 by {
            assert(before[k] == runs[k]);
        }
        lemma_sound_all(gathering, before);
        assert(runs[runs.len() - 1].us > 0);
        lemma_sound_step(gathering.after_all(before), runs.last());
        let earlier = gathering.emitted_all(before);
        let all = gathering.emitted_all(runs);
        assert forall|b: int| 0 <= b < all.len() implies is_burst(
            #[trigger] all[b],
            gathering.gap_us,
            gathering.min_edges,
        ) by {
            if b < earlier.len() {
                assert(all[b] == earlier[b]);
            }
        }
    }
}

/// Every burst begins and ends with a mark, holds no space as long as the
/// gap that separates bursts, and has an edge count within the bounds.
pub proof fn bursts_are_well_formed(runs: Seq<Run>, gap_us: i64, min_edges: usize)
    requires
        forall|k: int| 0 <= k < runs.len() ==> (#[trigger] runs[k]).us > 0,
    ensures
        forall|b: int|
            0 <= b < bursts_of(runs, gap_us, min_edges).len() ==> is_burst(
                #[trigger] bursts_of(runs, gap_us, min_edges)[b],
                gap_us,
                min_edges,
            ),
{
    let start = Gathering::start(gap_us, min_edges);
    lemma_sound_all(start, runs);
    lemma_sound_step(start.after_all(runs), Run { on: true, us: 1 });
}

/// Runs whose duration has a negative are accepted in any state.
pub proof fn durations_are_accepted(gathering: Gathering, runs: Seq<Run>)
    requires
        forall|k: int| 0 <= k < runs.len() ==> (#[trigger] runs[k]).us > i64::MIN,
    ensures
        gathering.accepts_all(runs),
{
}

/// Splitting in two goes on where the first part left off.
pub proof fn gathering_concat(gathering: Gathering, first: Seq<Run>, second: Seq<Run>)
    ensures
        gathering.after_all(first + second) == gathering.after_all(first).after_all(second),
        gathering.emitted_all(first + second) == gathering.emitted_all(first)
            + gathering.after_all(first).emitted_all(second),
    decreases second.len(),
{
    if second.len() == 0 {
        assert(first + second == first);
        assert(gathering.emitted_all(first) + Seq::<Seq<i64>>::empty() == gathering.emitted_all(
            first,
        ));
    } else {
        assert((first + second).drop_last() == first + second.drop_last());
        gathering_concat(gathering, first, second.drop_last());
        let left = gathering.emitted_all(first);
        let right = gathering.after_all(first).emitted_all(second.drop_last());
        match gathering.after_all(first + second.drop_last()).emitted(second.last()) {
            Some(burst) => {
                assert((left + right).push(burst) == left + right.push(burst));
            },
            None => {},
        }
    }
}

impl View for BurstAccumulator {
    type V = Gathering;

    closed spec fn view(&self) -> Gathering {
        Gathering {
            gap_us: self.gap_us,
            min_edges: self.min_edges,
            current: self.current@,
            overflows: self.overflows,
        }
    }
}

impl BurstAccumulator {
    /// An accumulator that has gathered nothing.
    pub fn new(gap_us: i64, min_edges: usize) -> (result: BurstAccumulator)
        ensures
            result@ == Gathering::start(gap_us, min_edges),
    {
        BurstAccumulator { gap_us, min_edges, current: Vec::new(), overflows: 0 }
    }

    /// Feed one completed run; returns a burst if the run ended one.
    pub fn push(&mut self, run: Run) -> (result: Option<Vec<i64>>)
        requires
            old(self)@.accepts(run),
        ensures
            final(self)@ == old(self)@.after(run),
            result is Some <==> old(self)@.emitted(run) is Some,
            result matches Some(burst) ==> Some(burst@) == old(self)@.emitted(run),
    {
        if !run.on && run.us >= self.gap_us {
            return self.finish();
        }
        if self.current.len() == 0 && !run.on {
            return None;  // leading silence
        }
        self.current.push(
            if run.on {
                run.us
            } else {
                -run.us
            },
        );
        if self.current.len() > MAX_BURST_EDGES {
            // Continuous edges with no gap: not a frame this tool can use, and
            // keeping it would grow without bound.
            self.current.clear();
            if self.overflows < u64::MAX {
                self.overflows = self.overflows + 1;
            }
        }
        None
    }

    /// Close the burst in progress, whether or not a gap ended it. The
    /// streaming detector calls this once a silence has run past `gap_us`,
    /// without waiting for the carrier to return; the offline path calls it
    /// when the recording ends.
    pub fn finish(&mut self) -> (result: Option<Vec<i64>>)
        ensures
            final(self)@ == old(self)@.cleared(),
            result is Some <==> old(self)@.closed() is Some,
            result matches Some(burst) ==> Some(burst@) == old(self)@.closed(),
    {
        let mut burst: Vec<i64> = Vec::new();
        std::mem::swap(&mut burst, &mut self.current);
        while burst.len() > 0 && burst[burst.len() - 1] < 0
            invariant
                trimmed(burst@) == trimmed(old(self)@.current),
            decreases burst@.len(),
        {
            burst.pop();
        }
        if burst.len() >= self.min_edges {
            Some(burst)
        } else {
            None
        }
    }

    /// Whether a burst is currently being accumulated.
    pub fn is_active(&self) -> (result: bool)
        ensures
            result == (self@.current.len() > 0),
    {
        self.current.len() > 0
    }

    /// Bursts discarded for exceeding [`MAX_BURST_EDGES`].
    pub fn overflows(&self) -> (result: u64)
        ensures
            result == self@.overflows,
    {
        self.overflows
    }
}

/// Split runs into bursts on spaces of at least `gap_us`, returning each burst
/// as a Flipper-RAW timing array (positive = mark, negative = space).
///
/// A remote keypress typically emits the same frame several times; splitting
/// keeps the inter-frame gaps out of the pulse-width histogram and lets the
/// repeats be compared against each other.
pub fn split_bursts(runs: &[Run], gap_us: i64, min_edges: usize) -> (result: Vec<Vec<i64>>)
    requires
        Gathering::start(gap_us, min_edges).accepts_all(runs@),
    ensures
        contents(result@) == bursts_of(runs@, gap_us, min_edges),
{
    let mut accumulator = BurstAccumulator::new(gap_us, min_edges);
    let ghost start = Gathering::start(gap_us, min_edges);
    let mut bursts: Vec<Vec<i64>> = Vec::new();
    for k in 0..runs.len()
        invariant
            start == Gathering::start(gap_us, min_edges),
            start.accepts_all(runs@),
            accumulator@ == start.after_all(runs@.take(k as int)),
            contents(bursts@) == start.emitted_all(runs@.take(k as int)),
    {
        assert(runs@.take(k + 1).drop_last() == runs@.take(k as int));
        let run: Run = runs[k];
        assert(accumulator@.accepts(runs@[k as int]));
        match accumulator.push(run) {
            Some(burst) => {
                let ghost before = contents(bursts@);
                bursts.push(burst);
                assert(contents(bursts@) =~= before.push(burst@));
            },
            None => {},
        }
    }
    assert(runs@.take(runs@.len() as int) == runs@);
    match accumulator.finish() {
        Some(burst) => {
            let ghost before = contents(bursts@);
            bursts.push(burst);
            assert(contents(bursts@) =~= before.push(burst@));
        },
        None => {},
    }
    bursts
}

} // verus!
