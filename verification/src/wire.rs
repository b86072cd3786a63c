//! The daemon's WebSocket protocol: what is asked and what is answered.
//!
//! Deliberately protocol-agnostic. Everything here moves raw OOK timings and
//! knows nothing about Proflame or fireplaces, which is what makes the daemon
//! a shared radio proxy rather than one appliance's bridge.
//!
//! Every message carries a version, from day one, so a client that predates a
//! change can be told so rather than silently misreading it.
//!
//! These are pure types and their validation; nothing in this module touches a
//! radio, or the JSON that carries them.

pub mod laws;

use vstd::prelude::*;

use crate::float;
use crate::float::Float;
use crate::ook::analysis;
use crate::ook::clock;
use crate::ook::precision;
use crate::ook::synthesis;
use crate::text;

verus! {

/// Bumped only for incompatible changes. Additive fields do not bump it.
pub const PROTOCOL_VERSION: u32 = 1;

/// A frame far longer than any remote's is more likely a client bug than a
/// real request.
pub const MAX_TIMINGS: usize = 8192;

/// Ceiling on how long one request may hold the transmitter, and with it the
/// band and the receiver. A Proflame keypress is under a second.
pub const MAX_AIR_TIME_US: i64 = 30_000_000;

/// The lowest frequency the radio tunes to, 1 MHz.
pub const MIN_FREQUENCY_HZ: u64 = 1_000_000;

/// The highest frequency the radio tunes to, 6 GHz.
pub const MAX_FREQUENCY_HZ: u64 = 6_000_000_000;

/// The highest TX VGA gain.
pub const MAX_TXVGA_DB: u16 = 47;

/// The version of a request that names none.
pub fn default_version() -> (result: u32)
    ensures
        result == PROTOCOL_VERSION,
{
    PROTOCOL_VERSION
}

/// The silence between repetitions of a request that names none.
pub fn default_gap_us() -> (result: u32)
    ensures
        result == 10_000,
{
    10_000
}

/// A request from a client, with its envelope.
#[derive(Debug, Clone)]
pub struct Request {
    pub v: u32,
    /// Echoed back on the reply, so a client can match them up. Optional
    /// because `websocat` users should not have to invent one.
    pub id: Option<String>,
    pub payload: RequestPayload,
}

/// What a client asks for.
#[derive(Debug, Clone)]
pub enum RequestPayload {
    /// Send OOK timings. The reply comes after the transmission has finished,
    /// not when it is queued, so a client knows the air time is over.
    Transmit(Transmit),
    /// Retune or silence the receiver.
    ConfigureRx(ConfigureRx),
    /// Device, receiver and counter state.
    Status,
}

/// A transmit request: Flipper-RAW timings, positive for carrier on.
#[derive(Debug, Clone)]
pub struct Transmit {
    pub frequency: u64,
    pub timings: Vec<i64>,
    /// Extra repetitions; 0 sends the frame once.
    pub repeat: u32,
    /// Silence between repetitions.
    pub gap_us: u32,
    /// TX VGA gain in dB, 0..=47. Defaults to the daemon's configured gain.
    pub txvga_db: Option<u16>,
    /// The +14 dB power amplifier. Off unless asked for: at close range it
    /// buys nothing and splatters.
    pub amp: bool,
}

/// How the receiver is to be set.
#[derive(Debug, Clone)]
pub struct ConfigureRx {
    /// Leave unset to keep the current frequency.
    pub frequency: Option<u64>,
    pub enabled: bool,
}

/// Anything the daemon sends: replies and unsolicited events alike.
#[derive(Debug, Clone)]
pub struct Message {
    pub v: u32,
    pub id: Option<String>,
    pub payload: MessagePayload,
}

/// What the daemon says.
#[derive(Debug, Clone)]
pub enum MessagePayload {
    /// A transmission completed, with the air time it actually took.
    Transmitted { duration_us: i64 },
    Error { message: String },
    Status(Box<Status>),
    RxFrame(RxFrame),
    DeviceState { state: DeviceState },
}

/// A burst the receiver heard.
#[derive(Debug, Clone)]
pub struct RxFrame {
    pub frequency: u64,
    /// Flipper-RAW timings, positive for carrier on.
    pub timings: Vec<i64>,
    /// Peak L1 magnitude during the burst, 0..=256. **Not dBm**: this is
    /// uncalibrated ADC amplitude and moves with the configured gains. It is
    /// useful for comparing bursts to each other, nothing more.
    pub rssi: u16,
    /// Milliseconds since the Unix epoch, taken when the burst completed.
    pub timestamp_ms: u64,
}

/// What the radio is doing. Pushed on every change, so a client never has to
/// poll to keep an availability indicator honest.
#[derive(Debug, Clone, Copy, PartialEq, Eq, Structural)]
pub enum DeviceState {
    /// Listening, which is where the arbiter returns between transmissions.
    Receiving,
    /// Transmitting; the receiver is deaf until this ends.
    Transmitting,
    /// Present but neither receiving nor transmitting.
    Idle,
    /// The radio could not be driven. The daemon keeps running and keeps
    /// retrying, so this is a state rather than an exit.
    Faulted,
}

/// Device, receiver and counter state.
#[derive(Debug, Clone)]
pub struct Status {
    /// The daemon's own version, for diagnostics.
    pub daemon_version: String,
    pub protocol_version: u32,
    pub state: DeviceState,
    /// Board id and firmware, once the radio has been opened successfully.
    pub device: Option<String>,
    pub rx: RxStatus,
    pub counters: Counters,
}

/// The receiver's state.
#[derive(Debug, Clone, Copy)]
pub struct RxStatus {
    pub enabled: bool,
    pub frequency: u64,
    pub sample_rate: u32,
    /// The detector's current slicing level, absent until the first window
    /// has been measured.
    pub threshold: Option<u16>,
}

/// What happened since the daemon started.
#[derive(Debug, Clone, Copy, PartialEq, Eq, Structural)]
pub struct Counters {
    pub rx_frames: u64,
    pub transmissions: u64,
    /// Bursts dropped for having more edges than a frame can plausibly hold,
    /// which is the signature of a jammed or badly sliced band.
    pub burst_overflows: u64,
    /// Times the radio had to be reopened after a failure.
    pub device_faults: u64,
}

impl Counters {
    /// Nothing counted yet.
    pub open spec fn none() -> Counters {
        Counters { rx_frames: 0, transmissions: 0, burst_overflows: 0, device_faults: 0 }
    }
}

impl Default for Counters {
    fn default() -> (result: Counters)
        ensures
            result == Counters::none(),
    {
        Counters { rx_frames: 0, transmissions: 0, burst_overflows: 0, device_faults: 0 }
    }
}

impl Message {
    /// A reply to the request with this id.
    pub fn reply(id: Option<String>, payload: MessagePayload) -> (result: Message)
        ensures
            result == (Message { v: PROTOCOL_VERSION, id, payload }),
    {
        Message { v: PROTOCOL_VERSION, id, payload }
    }

    /// An unsolicited event, belonging to no request.
    pub fn event(payload: MessagePayload) -> (result: Message)
        ensures
            result == (Message { v: PROTOCOL_VERSION, id: None, payload }),
    {
        Message { v: PROTOCOL_VERSION, id: None, payload }
    }
}

/// Why a transmit request was refused.
#[derive(Debug, Clone, PartialEq, Eq, Structural)]
pub enum Invalid {
    Empty,
    ZeroTiming,
    TooManyTimings { count: usize },
    FrequencyOutOfRange { frequency: u64 },
    AirTimeTooLong { duration_us: i64 },
    GainTooHigh { txvga_db: u16 },
}

/// Whether the radio tunes to a frequency.
pub open spec fn tunable(frequency: u64) -> bool {
    MIN_FREQUENCY_HZ <= frequency <= MAX_FREQUENCY_HZ
}

/// Why a frequency is refused.
pub open spec fn out_of_range(frequency: u64) -> Seq<char> {
    text::decimal(frequency as nat) + " Hz is outside the radio's 1 MHz–6 GHz range"@
}

/// Whether the radio tunes to a frequency: 1 MHz to 6 GHz.
pub fn is_tunable(frequency: u64) -> (result: bool)
    ensures
        result == tunable(frequency),
{
    MIN_FREQUENCY_HZ <= frequency && frequency <= MAX_FREQUENCY_HZ
}

/// Say why a frequency is refused.
pub fn out_of_range_text(frequency: u64) -> (result: String)
    ensures
        result@ == out_of_range(frequency),
{
    let mut out: String = String::new();
    text::push_decimal(&mut out, frequency as u128);
    out.append(" Hz is outside the radio's 1 MHz–6 GHz range");
    assert(out@ =~= out_of_range(frequency));
    out
}

/// A duration in seconds, to one decimal place.
pub open spec fn in_seconds(us: int) -> Seq<char> {
    let tenths = float::tenths_of(
        float::quotient(float::from_nat(clock::magnitude(us)), float::from_nat(1_000_000)),
    );
    let sign = if us < 0 {
        "-"@
    } else {
        Seq::empty()
    };
    sign + text::decimal(tenths / 10) + "."@ + text::decimal(tenths % 10)
}

fn push_seconds(out: &mut String, us: i64)
    ensures
        final(out)@ == old(out)@ + in_seconds(us as int),
{
    let magnitude: u64 = if us < 0 {
        (-(us as i128)) as u64
    } else {
        us as u64
    };
    proof {
        precision::seconds_are_moderate(magnitude as nat);
    }
    let tenths: u128 = Float::from_u64(magnitude).over(Float::from_u64(1_000_000)).tenths();
    if us < 0 {
        out.append("-");
    }
    text::push_decimal(out, tenths / 10);
    out.append(".");
    text::push_decimal(out, tenths % 10);
    assert(out@ =~= old(out)@ + in_seconds(us as int));
}

impl Invalid {
    /// The refusal in words.
    pub open spec fn described(self) -> Seq<char> {
        match self {
            Invalid::Empty => "no timings to transmit"@,
            Invalid::ZeroTiming => "a timing of zero has no meaning"@,
            Invalid::TooManyTimings { count } => text::decimal(count as nat)
                + " timings exceeds the 8192 limit"@,
            Invalid::FrequencyOutOfRange { frequency } => out_of_range(frequency),
            Invalid::AirTimeTooLong { duration_us } => in_seconds(duration_us as int)
                + " s of air time exceeds the 30.0 s limit"@,
            Invalid::GainTooHigh { txvga_db } => "TX VGA gain "@ + text::decimal(txvga_db as nat)
                + " dB exceeds the 47 dB maximum"@,
        }
    }

    /// The refusal in words.
    pub fn to_string(&self) -> (result: String)
        ensures
            result@ == self.described(),
    {
        let mut out: String = String::new();
        match self {
            Invalid::Empty => out.append("no timings to transmit"),
            Invalid::ZeroTiming => out.append("a timing of zero has no meaning"),
            Invalid::TooManyTimings { count } => {
                text::push_decimal(&mut out, *count as u128);
                out.append(" timings exceeds the 8192 limit");
            },
            Invalid::FrequencyOutOfRange { frequency } => {
                return out_of_range_text(*frequency);
            },
            Invalid::AirTimeTooLong { duration_us } => {
                push_seconds(&mut out, *duration_us);
                out.append(" s of air time exceeds the 30.0 s limit");
            },
            Invalid::GainTooHigh { txvga_db } => {
                out.append("TX VGA gain ");
                text::push_decimal(&mut out, *txvga_db as u128);
                out.append(" dB exceeds the 47 dB maximum");
            },
        }
        assert(out@ =~= self.described());
        out
    }
}

impl Transmit {
    /// How long the transmission is on the air: every repetition, and the
    /// gaps between them.
    pub open spec fn on_air(self) -> nat {
        analysis::air_time(self.timings@) * (self.repeat as nat + 1) + self.repeat as nat
            * self.gap_us as nat
    }

    /// The air time as a number of 64 bits, the largest one where it is more.
    pub open spec fn reported(self) -> i64 {
        if self.on_air() > i64::MAX {
            i64::MAX
        } else {
            self.on_air() as i64
        }
    }

    /// Why the request is refused; `None` where it is not.
    pub open spec fn refusal(self) -> Option<Invalid> {
        if self.timings@.len() == 0 {
            Some(Invalid::Empty)
        } else if self.timings@.len() > MAX_TIMINGS {
            Some(Invalid::TooManyTimings { count: self.timings@.len() as usize })
        } else if self.timings@.contains(0) {
            Some(Invalid::ZeroTiming)
        } else if !tunable(self.frequency) {
            Some(Invalid::FrequencyOutOfRange { frequency: self.frequency })
        } else if self.txvga_db is Some && self.txvga_db->0 > MAX_TXVGA_DB {
            Some(Invalid::GainTooHigh { txvga_db: self.txvga_db->0 })
        } else if self.reported() > MAX_AIR_TIME_US {
            Some(Invalid::AirTimeTooLong { duration_us: self.reported() })
        } else {
            None
        }
    }

    /// Total air time including repetitions and the gaps between them.
    ///
    /// Saturating throughout: a buggy client must get a refusal, not an
    /// overflow that wraps into a small number and sails through.
    pub fn air_time_us(&self) -> (result: i64)
        ensures
            result == self.reported(),
    {
        let limit: u128 = i64::MAX as u128;
        let mut frame: u128 = 0;
        for k in 0..self.timings.len()
            invariant
                limit == i64::MAX,
                frame == if analysis::air_time(self.timings@.take(k as int)) > i64::MAX {
                    i64::MAX as int
                } else {
                    analysis::air_time(self.timings@.take(k as int)) as int
                },
        {
            assert(self.timings@.take(k + 1).drop_last() =~= self.timings@.take(k as int));
            let timing: i128 = self.timings[k] as i128;
            let span: u128 = if timing < 0 {
                (-timing) as u128
            } else {
                timing as u128
            };
            frame = frame + span;
            if frame > limit {
                frame = limit;
            }
        }
        assert(self.timings@.take(self.timings@.len() as int) =~= self.timings@);
        let times: u128 = self.repeat as u128 + 1;
        assert(frame * times <= 0x7FFF_FFFF_FFFF_FFFF * 0x1_0000_0000) by (nonlinear_arith)
            requires
                frame <= 0x7FFF_FFFF_FFFF_FFFF,
                times <= 0x1_0000_0000,
        ;
        assert((self.repeat as u128) * (self.gap_us as u128) <= 0xFFFF_FFFF * 0xFFFF_FFFF)
            by (nonlinear_arith)
            requires
                self.repeat <= 0xFFFF_FFFF,
                self.gap_us <= 0xFFFF_FFFF,
        ;
        let total: u128 = frame * times + self.repeat as u128 * self.gap_us as u128;
        proof {
            let exact = analysis::air_time(self.timings@);
            if exact > i64::MAX {
                assert(frame * times >= frame && exact * times >= exact) by (nonlinear_arith)
                    requires
                        times >= 1,
                        frame >= 0,
                        exact >= 0,
                ;
            }
        }
        if total > limit {
            i64::MAX
        } else {
            total as i64
        }
    }

    /// Reject what the radio cannot do, and what it should not be asked to.
    ///
    /// The air-time ceiling is the one that matters operationally: the radio
    /// is half-duplex and single-tuner, so a long transmission is also a long
    /// deafness, and this is a shared proxy.
    pub fn validate(&self) -> (result: Result<(), Invalid>)
        ensures
            result == match self.refusal() {
                Some(invalid) => Err::<(), Invalid>(invalid),
                None => Ok::<(), Invalid>(()),
            },
    {
        let count: usize = self.timings.len();
        if count == 0 {
            return Err(Invalid::Empty);
        }
        if count > MAX_TIMINGS {
            return Err(Invalid::TooManyTimings { count });
        }
        for k in 0..count
            invariant
                0 < count <= MAX_TIMINGS,
                count == self.timings@.len(),
                forall|j: int| 0 <= j < k ==> self.timings@[j] != 0,
        {
            if self.timings[k] == 0 {
                assert(self.timings@[k as int] == 0);
                return Err(Invalid::ZeroTiming);
            }
        }
        assert(!self.timings@.contains(0));
        if !is_tunable(self.frequency) {
            return Err(Invalid::FrequencyOutOfRange { frequency: self.frequency });
        }
        if let Some(gain) = self.txvga_db {
            if gain > MAX_TXVGA_DB {
                return Err(Invalid::GainTooHigh { txvga_db: gain });
            }
        }
        let air_time: i64 = self.air_time_us();
        if air_time > MAX_AIR_TIME_US {
            return Err(Invalid::AirTimeTooLong { duration_us: air_time });
        }
        Ok(())
    }
}

/// A request that is accepted holds the band for thirty seconds at the most,
/// and its reported air time is exact.
pub proof fn accepted_is_brief(request: Transmit)
    requires
        request.refusal() is None,
    ensures
        request.on_air() <= MAX_AIR_TIME_US,
        request.reported() == request.on_air(),
{
}

/// However large the numbers in it, a request for more air time than the
/// ceiling is refused.
pub proof fn too_long_is_refused(request: Transmit)
    requires
        request.on_air() > MAX_AIR_TIME_US,
    ensures
        request.refusal() is Some,
{
}

/// How many samples a list of timings takes at the most.
proof fn lemma_samples(timings: Seq<i64>, sample_rate: u32)
    requires
        0 < sample_rate <= 20_000_000,
        analysis::air_time(timings) <= MAX_AIR_TIME_US,
    ensures
        synthesis::total_samples(timings, sample_rate) <= 21 * analysis::air_time(timings),
    decreases timings.len(),
{
    if timings.len() > 0 {
        lemma_samples(timings.drop_last(), sample_rate);
        precision::count_is_moderate(timings.last() as int, sample_rate);
        clock::sample_count_bounds(timings.last() as int, sample_rate);
    }
}

/// A request that is accepted can always be rendered, at any rate the radio
/// takes: the samples fit into a buffer, with room to spare.
pub proof fn accepted_renders(request: Transmit, sample_rate: u32, amplitude: i8)
    requires
        request.refusal() is None,
        0 < sample_rate <= 20_000_000,
    ensures
        synthesis::transmission(
            request.timings@,
            request.repeat,
            request.gap_us,
            sample_rate,
            amplitude,
        ).len() <= 1_260_000_000,
{
    let timings = request.timings@;
    let gap = seq![(-request.gap_us) as i64];
    let frame_us = analysis::air_time(timings);
    let gap_us = request.gap_us as nat;
    let repeat = request.repeat as nat;
    let times = repeat + 1;
    assert(frame_us <= frame_us * times) by (nonlinear_arith)
        requires
            times >= 1,
            frame_us >= 0,
    ;
    assert(0 <= repeat * gap_us) by (nonlinear_arith);
    lemma_samples(timings, sample_rate);
    synthesis::rendered_length(timings, sample_rate, amplitude);
    synthesis::rendered_length(gap, sample_rate, amplitude);
    let frame = synthesis::rendered(timings, sample_rate, amplitude);
    let silence = synthesis::rendered(gap, sample_rate, amplitude);
    synthesis::repeated_length(frame, silence, repeat);
    if repeat > 0 {
        assert(gap_us <= repeat * gap_us) by (nonlinear_arith)
            requires
                repeat >= 1,
        ;
        assert(gap.drop_last() =~= Seq::<i64>::empty());
        assert(analysis::air_time(gap.drop_last()) == 0);
        assert(analysis::air_time(gap) == gap_us);
        lemma_samples(gap, sample_rate);
    }
    assert(frame.len() + repeat * (silence.len() + frame.len()) <= 42 * (frame_us * times + repeat
        * gap_us)) by (nonlinear_arith)
        requires
            frame.len() <= 42 * frame_us,
            repeat > 0 ==> silence.len() <= 42 * gap_us,
            times == repeat + 1,
            repeat >= 0,
    {
        if repeat > 0 {
            assert(repeat * (silence.len() + frame.len()) <= repeat * (42 * gap_us + 42
                * frame_us));
        } else {
            assert(repeat * (silence.len() + frame.len()) == 0);
        }
        assert(frame_us * times == frame_us * repeat + frame_us);
    }
}

} // verus!
