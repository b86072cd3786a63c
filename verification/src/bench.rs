//! The bench tools: what the CLI makes of a capture, of decoded timings, and
//! of a frequency typed by hand.

pub mod files;
pub mod frequency;
pub mod laws;
pub mod report;

use vstd::prelude::*;

pub use frequency::{FrequencyFault, Scale};
pub use report::Findings;

use crate::float::Float;
use crate::ook::analysis;
use crate::ook::analysis::{compare_bursts, duration_us, BurstAgreement};
use crate::ook::bursts;
use crate::ook::bursts::split_bursts;
use crate::ook::detector;
use crate::ook::detector::{Burst, Detector, DetectorConfig, Listening};
use crate::ook::envelope;
use crate::ook::histogram;
use crate::ook::histogram::Levels;
use crate::ook::runs;

verus! {

/// How far the signal has to rise above the noise floor for a capture to be
/// worth anything.
pub const BARELY: u16 = 10;

/// How far repeats may be apart and still be the same frame, in microseconds.
pub const STATIC_US: i64 = 100;

/// How a capture is demodulated offline.
#[derive(Debug, Clone, Copy)]
pub struct DemodSettings {
    pub sample_rate: u32,
    /// Slicing level between noise floor and signal, as a fraction.
    pub threshold: Float,
    pub min_us: u32,
    pub gap_us: i64,
    pub min_edges: usize,
}

/// What a capture holds.
#[derive(Debug, Clone)]
pub struct Demodulated {
    pub samples: usize,
    pub levels: Levels,
    pub bursts: Vec<Vec<i64>>,
}

/// Turn a cs8 capture into bursts, in two passes: the first finds where to
/// slice, the second slices.
pub fn demodulate(raw: &[u8], settings: &DemodSettings) -> (result: Demodulated)
    ensures
        ({
            let mags = envelope::magnitudes(raw@);
            let tally = histogram::tally(mags);
            &&& result.samples == mags.len()
            &&& result.levels.noise_floor == tally.median()
            &&& result.levels.signal == tally.high()
            &&& result.levels.threshold == tally.sliced(settings.threshold@)
            &&& bursts::contents(result.bursts@) == bursts::bursts_of(
                runs::runs_of(
                    mags,
                    result.levels.threshold,
                    settings.sample_rate,
                    settings.min_us,
                ),
                settings.gap_us,
                settings.min_edges,
            )
        }),
{
    let magnitude: Vec<u16> = envelope::envelope(raw);
    let levels: Levels = histogram::levels(&magnitude, settings.threshold);
    let found: Vec<runs::Run> = runs::runs(
        &magnitude,
        levels.threshold,
        settings.sample_rate,
        settings.min_us,
    );
    proof {
        bursts::durations_are_accepted(
            bursts::Gathering::start(settings.gap_us, settings.min_edges),
            found@,
        );
    }
    let split: Vec<Vec<i64>> = split_bursts(&found, settings.gap_us, settings.min_edges);
    Demodulated { samples: magnitude.len(), levels, bursts: split }
}

/// What a live receiver would have made of a capture: the same file, through
/// the daemon's own detector.
pub fn replay(raw: &[u8], config: DetectorConfig) -> (result: Vec<Burst>)
    ensures
        detector::heard(result@) == Listening::start(config).steps(envelope::magnitudes(raw@)).1,
{
    let mut detector = Detector::new(config);
    detector.push(raw)
}

/// Whether the signal barely rises above the noise floor, so that the capture
/// may be empty.
pub fn barely_rises(levels: &Levels) -> (result: bool)
    ensures
        result == (histogram::gap(levels.noise_floor as int, levels.signal as int) < BARELY),
{
    levels.signal.saturating_sub(levels.noise_floor) < BARELY
}

/// Whether repeats are the same frame: the signature of "no rolling code".
pub fn is_static(agreement: &BurstAgreement) -> (result: bool)
    ensures
        result == (agreement.same_edge_count && agreement.max_deviation_us <= STATIC_US),
{
    agreement.same_edge_count && agreement.max_deviation_us <= STATIC_US
}

/// The bursts of a file, side by side.
#[derive(Debug, Clone)]
pub struct Repeats {
    /// How long each burst lasts.
    pub durations_us: Vec<i64>,
    /// How closely they agree, where there is more than one.
    pub agreement: Option<BurstAgreement>,
}

/// Whether the durations and the deviations of some bursts can be told.
pub open spec fn countable(bursts: Seq<Vec<i64>>) -> bool {
    &&& forall|k: int|
        #![trigger bursts[k]]
        0 <= k < bursts.len() ==> analysis::air_time(bursts[k]@) <= i64::MAX
    &&& analysis::deviations_fit(bursts)
}

/// Hold the bursts of a file side by side; `None` where they last longer, or
/// are further apart, than can be counted.
pub fn compare(bursts: &Vec<Vec<i64>>) -> (result: Option<Repeats>)
    ensures
        result is Some <==> countable(bursts@),
        result matches Some(repeats) ==> {
            &&& repeats.durations_us@.len() == bursts@.len()
            &&& forall|k: int|
                #![trigger bursts@[k]]
                0 <= k < bursts@.len() ==> repeats.durations_us@[k] == analysis::air_time(
                    bursts@[k]@,
                )
            &&& match repeats.agreement {
                Some(agreement) => bursts@.len() > 1 && agreement.of(bursts@),
                None => bursts@.len() <= 1,
            }
        },
{
    let mut durations_us: Vec<i64> = Vec::new();
    for k in 0..bursts.len()
        invariant
            durations_us@.len() == k,
            forall|j: int|
                #![trigger bursts@[j]]
                0 <= j < k ==> durations_us@[j] == analysis::air_time(bursts@[j]@)
                    && durations_us@[j] <= i64::MAX,
    {
        let burst: &Vec<i64> = &bursts[k];
        if !analysis::is_countable(burst) {
            assert(analysis::air_time(bursts@[k as int]@) > i64::MAX);
            return None;
        }
        durations_us.push(duration_us(burst));
    }
    if !analysis::are_comparable(bursts) {
        return None;
    }
    let agreement: Option<BurstAgreement> = if bursts.len() > 1 {
        compare_bursts(bursts)
    } else {
        None
    };
    Some(Repeats { durations_us, agreement })
}

/// The burst with this number, counted from one.
pub fn select(bursts: &Vec<Vec<i64>>, number: usize) -> (result: Option<&Vec<i64>>)
    requires
        number >= 1,
    ensures
        match result {
            Some(burst) => number <= bursts@.len() && *burst == bursts@[number - 1],
            None => number > bursts@.len(),
        },
{
    if number <= bursts.len() {
        Some(&bursts[number - 1])
    } else {
        None
    }
}

} // verus!
