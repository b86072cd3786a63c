//! OOK signal processing: IQ <-> Flipper-RAW timings.

pub mod adaptive;
pub mod analysis;
pub mod bursts;
pub mod clock;
pub mod comparison;
pub mod delivery;
pub mod detector;
pub mod envelope;
pub mod hearing;
pub mod histogram;
pub mod keypress;
pub mod peaks;
pub mod precision;
pub mod quantiles;
pub mod round_trip;
pub mod runs;
pub mod segmentation;
pub mod statistics;
pub mod streaming;
pub mod synthesis;
pub mod waveform;

pub use analysis::{
    are_comparable, compare_bursts, duration_us, has_buckets, is_countable, width_histogram,
    BurstAgreement,
};
pub use bursts::{split_bursts, BurstAccumulator};
pub use detector::{Burst, Detector, DetectorConfig};
pub use envelope::{envelope, peak_magnitude, BYTES_PER_SAMPLE};
pub use histogram::{levels, AmplitudeHistogram, Levels};
pub use runs::{runs, Run};
pub use synthesis::{render_transmission, synthesize, transmission_bytes};
