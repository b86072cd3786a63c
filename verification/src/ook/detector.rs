//! Finding bursts in a live stream.

use vstd::prelude::*;

use crate::float;
use crate::float::Float;
use crate::ook::bursts;
use crate::ook::bursts::{BurstAccumulator, Gathering};
use crate::ook::clock;
use crate::ook::envelope;
use crate::ook::histogram;
use crate::ook::histogram::{AmplitudeHistogram, Tally};
use crate::ook::runs::Run;

verus! {

/// The double nearest to 0.674, the distance from the median to the third
/// quartile of a normal distribution in standard deviations.
pub const QUARTILE_SIGMA_BITS: u64 = 0x3FE5_9168_72B0_20C5;

/// Eight, as a double.
pub const EIGHT_BITS: u64 = 0x4020_0000_0000_0000;

/// A burst found in a live stream, with the level it arrived at.
#[derive(Debug, Clone, PartialEq, Eq)]
pub struct Burst {
    /// Flipper-RAW timings: positive is mark, negative is space.
    pub timings: Vec<i64>,
    /// Peak L1 magnitude during the burst, 0..=256. Uncalibrated: this is
    /// raw ADC amplitude, not dBm, and depends on the configured gains.
    pub peak: u16,
}

/// How the streaming detector slices a live stream.
#[derive(Debug, Clone, Copy)]
pub struct DetectorConfig {
    pub sample_rate: u32,
    /// Slicing level between noise floor and signal, as a fraction.
    pub threshold_fraction: Float,
    /// Runs shorter than this are folded into their neighbours.
    pub min_us: u32,
    /// A space at least this long ends a burst.
    ///
    /// This must be shorter than the shortest inter-frame gap worth keeping
    /// apart: Proflame repeats sit 4.15 ms apart, so the offline default of
    /// 10 ms would merge a whole keypress into one blob.
    pub gap_us: i64,
    /// Bursts with fewer edges than this are noise, not frames.
    pub min_edges: usize,
    /// How far above the noise floor, in robust standard deviations, the
    /// threshold is never allowed to sit below. This is what keeps a quiet
    /// band from slicing its own noise into frames.
    pub noise_sigmas: Float,
    /// How much signal the adaptive threshold is derived from at a time.
    pub window_samples: usize,
}

impl DetectorConfig {
    /// The settings of a detector that nothing was asked of but its rate.
    pub open spec fn usual(sample_rate: u32) -> DetectorConfig {
        DetectorConfig {
            sample_rate,
            threshold_fraction: Float { bits: histogram::HALF_BITS },
            min_us: 40,
            gap_us: 3_000,
            min_edges: 8,
            noise_sigmas: Float { bits: EIGHT_BITS },
            window_samples: sample_rate as usize,
        }
    }

    /// The usual settings at this rate.
    pub fn new(sample_rate: u32) -> (result: DetectorConfig)
        ensures
            result == DetectorConfig::usual(sample_rate),
    {
        DetectorConfig {
            sample_rate,
            threshold_fraction: Float::from_bits(histogram::HALF_BITS),
            min_us: 40,
            gap_us: 3_000,
            min_edges: 8,
            noise_sigmas: Float::from_bits(EIGHT_BITS),
            // One second: long enough that a keypress is a small fraction of
            // the window, so the 99.9th percentile still finds the noise
            // floor rather than the signal.
            window_samples: sample_rate as usize,
        }
    }

    /// The shortest run, in samples, that is no glitch.
    pub open spec fn min_samples(self) -> int {
        clock::at_least_one(
            float::from_nat(self.min_us as nat),
            self.sample_rate,
            u64::MAX as int,
        )
    }

    /// The silence, in samples, that ends a burst without waiting for the
    /// carrier to return.
    pub open spec fn gap_samples(self) -> int {
        clock::at_least_one(clock::from_int(self.gap_us as int), self.sample_rate, u64::MAX as int)
    }

    /// How many samples a window holds: one at the least.
    pub open spec fn window(self) -> int {
        if self.window_samples == 0 {
            1
        } else {
            self.window_samples as int
        }
    }

    /// The level some multiple of the noise spread above the median, which a
    /// burst in a minority of the window cannot move.
    pub open spec fn robust_floor(self, tally: Tally) -> int {
        let floor = tally.median();
        let quartile = tally.percentile(float::decode(histogram::THREE_QUARTERS_BITS));
        let sigma = float::quotient(
            float::from_nat(histogram::gap(floor, quartile) as nat),
            float::decode(QUARTILE_SIGMA_BITS),
        );
        float::clamped(
            floor + float::round_into(
                float::product(sigma, self.noise_sigmas@),
                0,
                u16::MAX as int,
            ),
            0,
            u16::MAX as int,
        )
    }

    /// The threshold that a window's amplitudes call for: the higher of the
    /// robust floor and the level sliced between noise and signal, and never
    /// zero, which would classify silence as carrier.
    pub open spec fn threshold(self, tally: Tally) -> u16 {
        let robust = self.robust_floor(tally);
        let sliced = tally.sliced(self.threshold_fraction@);
        let higher = if robust > sliced {
            robust
        } else {
            sliced
        };
        if higher < 1 {
            1
        } else {
            higher as u16
        }
    }
}

/// What a burst is, as a value.
pub struct Heard {
    pub timings: Seq<i64>,
    pub peak: u16,
}

/// The state of a detector.
pub struct Listening {
    pub config: DetectorConfig,
    /// The amplitudes of the window being gathered.
    pub tally: Tally,
    pub seen: nat,
    /// `None` only until the first window has been measured.
    pub threshold: Option<u16>,
    pub on: bool,
    pub run_samples: u64,
    /// The last completed run, which a glitch can still be charged to.
    pub pending: Option<Run>,
    pub gathering: Gathering,
    /// The peak of the run in progress.
    pub run_peak: u16,
    /// The peak of the run held back.
    pub pending_peak: u16,
    /// The peak of the burst in progress, through its last mark.
    pub burst_peak: u16,
    /// The peak of the space that follows, which is part of the burst only
    /// once another mark is.
    pub tail_peak: u16,
}

/// The higher of two magnitudes.
pub open spec fn higher(a: u16, b: u16) -> u16 {
    if a > b {
        a
    } else {
        b
    }
}

impl Listening {
    /// A detector that has heard nothing.
    pub open spec fn start(config: DetectorConfig) -> Listening {
        Listening {
            config,
            tally: Tally::empty(),
            seen: 0,
            threshold: None,
            on: false,
            run_samples: 0,
            pending: None,
            gathering: Gathering::start(config.gap_us, config.min_edges),
            run_peak: 0,
            pending_peak: 0,
            burst_peak: 0,
            tail_peak: 0,
        }
    }

    /// The run in progress, as it stands.
    pub open spec fn current_run(self) -> Run {
        Run {
            on: self.on,
            us: clock::run_us(self.run_samples as nat, self.config.sample_rate) as i64,
        }
    }

    /// The burst in progress over: where it is delivered, its timings come
    /// with its peak, and where it is not, its peak goes with it.
    pub open spec fn over(self, timings: Option<Seq<i64>>) -> (Listening, Seq<Heard>) {
        (
            Listening { burst_peak: 0, tail_peak: 0, ..self },
            match timings {
                Some(timings) => seq![Heard { timings, peak: self.burst_peak }],
                None => Seq::empty(),
            },
        )
    }

    /// A run handed to the burst in progress, with its peak. Either it joins
    /// the burst, or nothing is being gathered any more.
    pub open spec fn given(self, run: Run, peak: u16) -> (Listening, Seq<Heard>) {
        let next = Listening { gathering: self.gathering.after(run), ..self };
        if next.gathering.current.len() == 0 {
            next.over(self.gathering.emitted(run))
        } else if bursts::signed(run) < 0 {
            (Listening { tail_peak: higher(self.tail_peak, peak), ..next }, Seq::empty())
        } else {
            (
                Listening {
                    burst_peak: higher(self.burst_peak, higher(self.tail_peak, peak)),
                    tail_peak: 0,
                    ..next
                },
                Seq::empty(),
            )
        }
    }

    /// The burst in progress closed.
    pub open spec fn ended(self) -> (Listening, Seq<Heard>) {
        Listening { gathering: self.gathering.cleared(), ..self }.over(self.gathering.closed())
    }

    /// The run in progress completed: a glitch is charged to the run it
    /// interrupted, a run of the same polarity continues it, and any other
    /// takes its place.
    pub open spec fn completed(self) -> (Listening, Seq<Heard>) {
        let run = self.current_run();
        match self.pending {
            Some(previous) => if self.continues(previous) {
                let longer = Run { on: previous.on, us: clock::extended(previous.us, run.us) };
                (
                    Listening {
                        pending: Some(longer),
                        pending_peak: higher(self.pending_peak, self.run_peak),
                        ..self
                    },
                    Seq::empty(),
                )
            } else {
                Listening { pending: Some(run), pending_peak: self.run_peak, ..self }.given(
                    previous,
                    self.pending_peak,
                )
            },
            None => (
                Listening { pending: Some(run), pending_peak: self.run_peak, ..self },
                Seq::empty(),
            ),
        }
    }

    /// Whether the run in progress goes on with the one before it: as a glitch
    /// in it, or with the same polarity.
    pub open spec fn continues(self, previous: Run) -> bool {
        self.run_samples < self.config.min_samples() || previous.on == self.on
    }

    /// What is held back handed on, and the burst closed.
    pub open spec fn flushed(self) -> (Listening, Seq<Heard>) {
        let (handed, first) = match self.pending {
            Some(run) => Listening { pending: None, pending_peak: 0, ..self }.given(
                run,
                self.pending_peak,
            ),
            None => (self, Seq::empty()),
        };
        let (closed, second) = handed.ended();
        (closed, first + second)
    }

    /// One sample sliced into the run in progress, before the silence is
    /// measured.
    pub open spec fn extended(self, magnitude: u16, threshold: u16) -> (Listening, Seq<Heard>) {
        let on = magnitude >= threshold;
        if on == self.on {
            let run_samples = if self.run_samples < u64::MAX {
                (self.run_samples + 1) as u64
            } else {
                u64::MAX
            };
            (
                Listening { run_samples, run_peak: higher(self.run_peak, magnitude), ..self },
                Seq::empty(),
            )
        } else {
            let (completed, heard) = self.completed();
            (Listening { on, run_samples: 1, run_peak: magnitude, ..completed }, heard)
        }
    }

    /// Whether a silence has just outrun the gap.
    pub open spec fn gap_reached(self) -> bool {
        !self.on && self.run_samples == self.config.gap_samples()
    }

    /// One sample sliced.
    #[verifier::opaque]
    pub open spec fn sliced(self, magnitude: u16, threshold: u16) -> (Listening, Seq<Heard>) {
        let (next, heard) = self.extended(magnitude, threshold);
        if next.gap_reached() {
            let (flushed, more) = next.flushed();
            (flushed, heard + more)
        } else {
            (next, heard)
        }
    }

    /// The window measured, and a fresh one begun.
    pub open spec fn retuned(self) -> Listening {
        Listening {
            tally: Tally::empty(),
            seen: 0,
            threshold: Some(self.config.threshold(self.tally)),
            ..self
        }
    }

    /// One sample heard.
    pub open spec fn step(self, magnitude: u16) -> (Listening, Seq<Heard>) {
        let counted = Listening {
            tally: self.tally.with(magnitude),
            seen: self.seen + 1,
            ..self
        };
        let (sliced, heard) = match self.threshold {
            Some(threshold) => counted.sliced(magnitude, threshold),
            None => (counted, Seq::empty()),
        };
        if sliced.seen >= self.config.window_samples {
            (sliced.retuned(), heard)
        } else {
            (sliced, heard)
        }
    }

    /// Some samples heard, with the bursts that they completed.
    pub open spec fn steps(self, mags: Seq<u16>) -> (Listening, Seq<Heard>)
        decreases mags.len(),
    {
        if mags.len() == 0 {
            (self, Seq::empty())
        } else {
            let (before, heard) = self.steps(mags.drop_last());
            let (after, more) = before.step(mags.last());
            (after, heard + more)
        }
    }

    /// What holds of every detector.
    pub open spec fn sound(self) -> bool {
        &&& self.seen < self.config.window()
        &&& self.tally.total() == self.seen
        &&& self.threshold matches Some(threshold) ==> threshold >= 1
        &&& self.pending matches Some(run) ==> run.us >= 0
    }
}

/// Slicing leaves the window and the threshold alone.
pub proof fn slicing_keeps_the_window(state: Listening, magnitude: u16, threshold: u16)
    ensures
        state.sliced(magnitude, threshold).0.config == state.config,
        state.sliced(magnitude, threshold).0.tally == state.tally,
        state.sliced(magnitude, threshold).0.seen == state.seen,
        state.sliced(magnitude, threshold).0.threshold == state.threshold,
{
    reveal(Listening::sliced);
}

fn higher_of(a: u16, b: u16) -> (result: u16)
    ensures
        result == higher(a, b),
{
    if a > b {
        a
    } else {
        b
    }
}

/// The contents of a list of bursts.
pub open spec fn heard(bursts: Seq<Burst>) -> Seq<Heard> {
    bursts.map_values(|burst: Burst| Heard { timings: burst.timings@, peak: burst.peak })
}

/// What was heard, without the levels.
pub open spec fn timings_of(heard: Seq<Heard>) -> Seq<Seq<i64>> {
    heard.map_values(|burst: Heard| burst.timings)
}

/// Finds bursts in a continuous stream, adapting its threshold as it goes.
///
/// The offline path is two-pass: it reads the whole capture, then slices it.
/// A live receiver cannot do that, so the threshold here is recomputed once
/// per window from that window's amplitude distribution.
///
/// The threshold stays armed at all times, which is what lets the *first*
/// keypress after a long silence be received rather than merely teaching the
/// detector what a keypress looks like. The exception is the first window
/// after startup, during which there is no measurement at all.
///
/// Deciding where to put the threshold without knowing whether the window
/// contains signal is the whole problem. Asking whether the 99.9th percentile
/// clears the median does not work: on a real band the *noise alone* spans
/// far more than any fixed margin, so quiet windows look like signal and the
/// threshold lands inside the noise. So the threshold is bounded from below
/// with a statistic a burst cannot move: the noise spread measured between
/// the median and the 75th percentile.
///
/// A run, a pending duration and the overflow count stop at the largest
/// number their type holds.
pub struct Detector {
    config: DetectorConfig,
    histogram: AmplitudeHistogram,
    window_seen: usize,
    threshold: Option<u16>,
    min_samples: u64,
    gap_samples: u64,
    on: bool,
    run_samples: u64,
    pending: Option<Run>,
    accumulator: BurstAccumulator,
    run_peak: u16,
    pending_peak: u16,
    burst_peak: u16,
    tail_peak: u16,
}

impl View for Detector {
    type V = Listening;

    closed spec fn view(&self) -> Listening {
        Listening {
            config: self.config,
            tally: self.histogram@,
            seen: self.window_seen as nat,
            threshold: self.threshold,
            on: self.on,
            run_samples: self.run_samples,
            pending: self.pending,
            gathering: self.accumulator@,
            run_peak: self.run_peak,
            pending_peak: self.pending_peak,
            burst_peak: self.burst_peak,
            tail_peak: self.tail_peak,
        }
    }
}

impl Detector {
    /// The histogram counts the window, and the settings in samples are those
    /// that the configuration calls for.
    pub closed spec fn wf(self) -> bool {
        &&& self.histogram.wf()
        &&& self@.sound()
        &&& self.min_samples == self.config.min_samples()
        &&& self.gap_samples == self.config.gap_samples()
    }

    /// Every well-formed detector is in a sound state.
    pub proof fn wf_is_sound(self)
        requires
            self.wf(),
        ensures
            self@.sound(),
    {
    }

    /// A detector that has yet to learn its band.
    pub fn new(config: DetectorConfig) -> (result: Detector)
        ensures
            result@ == Listening::start(config),
            result.wf(),
    {
        let us_per_sample: Float = clock::sample_duration(config.sample_rate);
        let shortest: u64 = Float::from_u64(config.min_us as u64).over(
            us_per_sample,
        ).round_to_u64();
        let gap: u64 = Float::from_i64(config.gap_us).over(us_per_sample).round_to_u64();
        Detector {
            histogram: AmplitudeHistogram::new(),
            window_seen: 0,
            threshold: None,
            min_samples: if shortest < 1 {
                1
            } else {
                shortest
            },
            gap_samples: if gap < 1 {
                1
            } else {
                gap
            },
            on: false,
            run_samples: 0,
            pending: None,
            accumulator: BurstAccumulator::new(config.gap_us, config.min_edges),
            run_peak: 0,
            pending_peak: 0,
            burst_peak: 0,
            tail_peak: 0,
            config,
        }
    }

    /// The current slicing threshold, or `None` before the first window has
    /// been measured.
    pub fn threshold(&self) -> (result: Option<u16>)
        ensures
            result == self@.threshold,
    {
        self.threshold
    }

    /// Bursts discarded for having more edges than a frame plausibly holds:
    /// the signature of a jammed band or a badly placed threshold.
    pub fn overflows(&self) -> (result: u64)
        ensures
            result == self@.gathering.overflows,
    {
        self.accumulator.overflows()
    }

    /// Feed one chunk of interleaved cs8, returning every burst it completed.
    pub fn push(&mut self, iq: &[u8]) -> (result: Vec<Burst>)
        requires
            old(self).wf(),
        ensures
            final(self).wf(),
            (final(self)@, heard(result@)) == old(self)@.steps(envelope::magnitudes(iq@)),
    {
        let mut bursts: Vec<Burst> = Vec::new();
        let ghost mags = envelope::magnitudes(iq@);
        let count: usize = iq.len() / envelope::BYTES_PER_SAMPLE;
        assert(heard(bursts@) =~= Seq::<Heard>::empty());
        for k in 0..count
            invariant
                count == iq@.len() / 2,
                mags == envelope::magnitudes(iq@),
                self.wf(),
                (self@, heard(bursts@)) == old(self)@.steps(mags.take(k as int)),
        {
            let magnitude: u16 = envelope::magnitude_at(iq, k);
            assert(mags.take(k + 1).drop_last() == mags.take(k as int));
            self.push_magnitude(magnitude, &mut bursts);
        }
        assert(mags.take(count as int) == mags);
        bursts
    }

    fn push_magnitude(&mut self, magnitude: u16, bursts: &mut Vec<Burst>)
        requires
            old(self).wf(),
        ensures
            final(self).wf(),
            final(self)@ == old(self)@.step(magnitude).0,
            heard(final(bursts)@) == heard(old(bursts)@) + old(self)@.step(magnitude).1,
    {
        self.histogram.add_magnitude(magnitude);
        self.window_seen = self.window_seen + 1;
        match self.threshold {
            Some(threshold) => {
                proof {
                    slicing_keeps_the_window(self@, magnitude, threshold);
                }
                self.push_sample(magnitude, threshold, bursts);
            },
            None => {
                assert(heard(bursts@) =~= heard(bursts@) + Seq::<Heard>::empty());
            },
        }
        if self.window_seen >= self.config.window_samples {
            self.retune();
        }
    }

    /// Everything but the window's own invariants.
    spec fn slicing(self) -> bool {
        &&& self.histogram.wf()
        &&& self.min_samples == self.config.min_samples()
        &&& self.gap_samples == self.config.gap_samples()
        &&& self@.pending matches Some(run) ==> run.us >= 0
    }

    fn push_sample(&mut self, magnitude: u16, threshold: u16, bursts: &mut Vec<Burst>)
        requires
            old(self).slicing(),
        ensures
            final(self).slicing(),
            final(self)@ == old(self)@.sliced(magnitude, threshold).0,
            heard(final(bursts)@) == heard(old(bursts)@) + old(self)@.sliced(
                magnitude,
                threshold,
            ).1,
    {
        reveal(Listening::sliced);
        let ghost first = old(self)@.extended(magnitude, threshold);
        let on: bool = magnitude >= threshold;
        if on == self.on {
            if self.run_samples < u64::MAX {
                self.run_samples = self.run_samples + 1;
            }
            self.run_peak = higher_of(self.run_peak, magnitude);
            assert(heard(bursts@) =~= heard(bursts@) + Seq::<Heard>::empty());
        } else {
            self.complete_run(bursts);
            self.on = on;
            self.run_samples = 1;
            self.run_peak = magnitude;
        }
        assert(self@ == first.0);
        assert(heard(bursts@) == heard(old(bursts)@) + first.1);

        // A silence that has already outrun the gap ends the burst now. Waiting
        // for the carrier to return would mean a frame is only delivered when
        // the *next* one arrives, and never at all once the band goes quiet.
        if !self.on && self.run_samples == self.gap_samples {
            self.flush(bursts);
            assert(heard(bursts@) =~= heard(old(bursts)@) + (first.1 + first.0.flushed().1));
        }
    }

    /// Hand on the run held back, and close the burst.
    fn flush(&mut self, bursts: &mut Vec<Burst>)
        requires
            old(self).slicing(),
        ensures
            final(self).slicing(),
            final(self)@ == old(self)@.flushed().0,
            heard(final(bursts)@) == heard(old(bursts)@) + old(self)@.flushed().1,
    {
        let ghost mut first: Seq<Heard> = Seq::empty();
        match self.pending {
            Some(run) => {
                let peak: u16 = self.pending_peak;
                self.pending = None;
                self.pending_peak = 0;
                proof {
                    first = self@.given(run, peak).1;
                }
                self.give(run, peak, bursts);
            },
            None => {},
        }
        assert(heard(bursts@) =~= heard(old(bursts)@) + first);
        let ghost second = self@.ended().1;
        let closed: Option<Vec<i64>> = self.accumulator.finish();
        self.end_burst(closed, bursts);
        assert(heard(bursts@) =~= heard(old(bursts)@) + (first + second));
    }

    /// Hand a completed run to the accumulator, with its peak.
    fn give(&mut self, run: Run, peak: u16, bursts: &mut Vec<Burst>)
        requires
            old(self).slicing(),
            run.us >= 0,
        ensures
            final(self).slicing(),
            final(self)@ == old(self)@.given(run, peak).0,
            heard(final(bursts)@) == heard(old(bursts)@) + old(self)@.given(run, peak).1,
    {
        let burst: Option<Vec<i64>> = self.accumulator.push(run);
        if !self.accumulator.is_active() {
            self.end_burst(burst, bursts);
        } else {
            // A space is part of the burst only if another mark follows.
            if !run.on && run.us > 0 {
                self.tail_peak = higher_of(self.tail_peak, peak);
            } else {
                self.burst_peak = higher_of(self.burst_peak, higher_of(self.tail_peak, peak));
                self.tail_peak = 0;
            }
            assert(heard(bursts@) =~= heard(bursts@) + Seq::<Heard>::empty());
        }
    }

    /// Deliver the burst that is over, if it is to be delivered, and forget
    /// its peak either way.
    fn end_burst(&mut self, timings: Option<Vec<i64>>, bursts: &mut Vec<Burst>)
        requires
            old(self).slicing(),
        ensures
            final(self).slicing(),
            ({
                let contents = match timings {
                    Some(timings) => Some(timings@),
                    None => None,
                };
                &&& final(self)@ == old(self)@.over(contents).0
                &&& heard(final(bursts)@) == heard(old(bursts)@) + old(self)@.over(contents).1
            }),
    {
        match timings {
            Some(timings) => {
                let ghost found = Heard { timings: timings@, peak: self.burst_peak };
                bursts.push(Burst { timings, peak: self.burst_peak });
                assert(heard(bursts@) =~= heard(old(bursts)@) + seq![found]);
            },
            None => {
                assert(heard(bursts@) =~= heard(old(bursts)@) + Seq::<Heard>::empty());
            },
        }
        self.burst_peak = 0;
        self.tail_peak = 0;
    }

    /// Complete the run in progress, folding glitches and coalescing
    /// same-polarity runs exactly as the offline path does.
    fn complete_run(&mut self, bursts: &mut Vec<Burst>)
        requires
            old(self).slicing(),
        ensures
            final(self).slicing(),
            final(self)@ == old(self)@.completed().0,
            heard(final(bursts)@) == heard(old(bursts)@) + old(self)@.completed().1,
    {
        let run = Run {
            on: self.on,
            us: clock::run_duration(self.run_samples, self.config.sample_rate),
        };
        proof {
            clock::run_us_bounds(self.run_samples as nat, self.config.sample_rate);
        }
        let glitch: bool = self.run_samples < self.min_samples;
        match self.pending {
            Some(previous) => {
                if glitch || previous.on == run.on {
                    self.pending = Some(
                        Run { on: previous.on, us: clock::extend(previous.us, run.us) },
                    );
                    self.pending_peak = higher_of(self.pending_peak, self.run_peak);
                    assert(heard(bursts@) =~= heard(bursts@) + Seq::<Heard>::empty());
                } else {
                    let peak: u16 = self.pending_peak;
                    self.pending = Some(run);
                    self.pending_peak = self.run_peak;
                    self.give(previous, peak, bursts);
                }
            },
            None => {
                self.pending = Some(run);
                self.pending_peak = self.run_peak;
                assert(heard(bursts@) =~= heard(bursts@) + Seq::<Heard>::empty());
            },
        }
    }

    /// Recompute the threshold from the window just gathered, then start a
    /// fresh window so the detector keeps tracking the band rather than
    /// averaging over all time.
    fn retune(&mut self)
        requires
            old(self).slicing(),
        ensures
            final(self).wf(),
            final(self)@ == old(self)@.retuned(),
    {
        let floor: u16 = self.histogram.percentile(Float::from_bits(histogram::HALF_BITS));
        let quartile: u16 = self.histogram.percentile(
            Float::from_bits(histogram::THREE_QUARTERS_BITS),
        );
        let signal: u16 = self.histogram.percentile(
            Float::from_bits(histogram::NEARLY_ALL_BITS),
        );

        // Unlike the 99.9th percentile, the third quartile is immune to a
        // burst that occupies less than a quarter of the window, which is what
        // makes it usable when it is not yet known whether one is present.
        let spread: u16 = quartile.saturating_sub(floor);
        let sigma: Float = Float::from_u64(spread as u64).over(
            Float::from_bits(QUARTILE_SIGMA_BITS),
        );
        let robust: u16 = floor.saturating_add(
            sigma.times(self.config.noise_sigmas).round_to_u16(),
        );
        let sliced: u16 = histogram::raise(
            floor,
            signal.saturating_sub(floor),
            self.config.threshold_fraction,
        );
        let higher: u16 = if robust > sliced {
            robust
        } else {
            sliced
        };
        self.threshold = Some(
            if higher < 1 {
                1
            } else {
                higher
            },
        );
        self.histogram = AmplitudeHistogram::new();
        self.window_seen = 0;
    }
}

} // verus!
