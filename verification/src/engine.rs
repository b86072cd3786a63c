//! The half-duplex arbiter: one thread, one radio, one owner.
//!
//! A HackRF is a single-tuner, half-duplex device, and the driver's I/O is
//! blocking. Both facts point at the same shape: a dedicated OS thread owns
//! the radio and nothing else touches it. Arbitration then needs no locks at
//! all, because it *is* this thread's control flow: receive by default,
//! preempt for a transmission, return to receiving.
//!
//! The decisions stand here, apart from the radio and from the clock: an
//! [`Arbiter`] says what to do next, and is told how it went. Whoever runs it
//! performs the action, reports the event, and passes on the messages and the
//! reply that come with it.

use vstd::prelude::*;

use crate::ook::detector;
use crate::ook::detector::{Burst, Detector, DetectorConfig, Listening};
use crate::ook::envelope;
use crate::ook::synthesis;
use crate::radio;
use crate::wire;
use crate::wire::{Counters, DeviceState, Message, MessagePayload, RxFrame, RxStatus, Status};

pub mod aftermath;
pub mod conduct;
pub mod laws;

verus! {

/// The daemon's own version, for diagnostics.
pub const DAEMON_VERSION: &'static str = "0.1.2";

/// How long to wait before reopening a radio that failed.
pub const FAULT_BACKOFF_MS: u64 = 2_000;

/// The longest wait, which repeated failures double up to.
pub const MAX_BACKOFF_MS: u64 = 60_000;

/// How long the thread parks while faulted before looking at its inbox again.
/// Short enough that a client's request is not noticeably delayed.
pub const FAULT_POLL_MS: u64 = 100;

/// Settings for a transmission, as the arbiter hands them to the radio.
#[derive(Debug, Clone, Copy, PartialEq, Eq, Structural)]
pub struct TxParams {
    pub frequency_hz: u64,
    pub sample_rate: u32,
    pub txvga_db: u16,
    pub amp_enable: bool,
}

/// The radio, as the arbiter needs it. An error is told in words.
///
/// Implementations must leave the device stopped after [`Self::transmit`]:
/// the arbiter restarts the receiver itself, and a device left transmitting
/// is a device jamming the band.
pub trait Transceiver {
    /// Begin receiving at this frequency. Called again to retune.
    fn start_rx(&mut self, frequency_hz: u64) -> Result<(), String>;

    /// Block until the next transfer of interleaved cs8 arrives, replacing
    /// the contents of `out`.
    fn read(&mut self, out: &mut Vec<u8>) -> Result<(), String>;

    /// Stop receiving or transmitting; idempotent.
    fn stop(&mut self) -> Result<(), String>;

    /// Send a prepared baseband buffer, returning once it is off the antenna.
    fn transmit(&mut self, params: &TxParams, samples: &[u8]) -> Result<(), String>;

    /// Board id and firmware, for diagnostics.
    fn describe(&mut self) -> Result<String, String>;
}

/// What the radio thread can be asked to do.
///
/// Every request is answered by one [`Reply`], so a caller learns the outcome
/// of *its* request rather than inferring it from state.
#[derive(Debug, Clone)]
pub enum Command {
    Transmit { request: wire::Transmit },
    ConfigureRx { frequency: Option<u64>, enabled: bool },
    Status,
    /// A radio appeared on the bus: worth trying at once. Not answered.
    DeviceArrived,
}

/// The answer to a command.
#[derive(Debug)]
pub enum Reply {
    /// The air time actually sent, in microseconds.
    Transmitted(Result<i64, String>),
    Configured(Result<(), String>),
    Status(Box<Status>),
}

/// How the arbiter drives the radio.
#[derive(Debug, Clone, Copy)]
pub struct Config {
    pub sample_rate: u32,
    pub rx_frequency: u64,
    pub rx_enabled: bool,
    pub txvga_db: u16,
    /// Baseband amplitude for a mark. Full scale would clip the DAC.
    pub tx_amplitude: i8,
    pub detector: DetectorConfig,
}

impl Config {
    /// The usual settings, at this rate and frequency.
    pub fn new(sample_rate: u32, rx_frequency: u64) -> (result: Config)
        ensures
            result == (Config {
                sample_rate,
                rx_frequency,
                rx_enabled: true,
                txvga_db: 30,
                tx_amplitude: 100,
                detector: DetectorConfig::usual(sample_rate),
            }),
    {
        Config {
            sample_rate,
            rx_frequency,
            rx_enabled: true,
            txvga_db: 30,
            tx_amplitude: 100,
            detector: DetectorConfig::new(sample_rate),
        }
    }
}

/// What to do next.
#[derive(Debug, Clone)]
pub enum Action {
    /// Ask the radio who it is.
    Describe,
    /// Look for a command, waiting for one where told to.
    Poll { wait: bool },
    StartRx { frequency_hz: u64 },
    Read,
    Stop,
    Transmit { params: TxParams, samples: Vec<u8> },
    Sleep { ms: u64 },
    /// Nothing more: the thread is done.
    Exit,
}

/// How an action went.
#[derive(Debug)]
pub enum Event {
    Described(Result<String, String>),
    Command(Command),
    NoCommand,
    /// Nobody is left to send a command.
    Closed,
    Started(Result<(), String>),
    Received(Result<Vec<u8>, String>),
    Stopped(Result<(), String>),
    Transmitted(Result<(), String>),
    Slept,
}

/// When an event happened.
#[derive(Debug, Clone, Copy, PartialEq, Eq, Structural)]
pub struct Moment {
    /// Milliseconds on a clock that never goes back.
    pub now_ms: u64,
    /// Milliseconds since the Unix epoch.
    pub unix_ms: u64,
}

/// What the arbiter is waiting for.
#[derive(Debug)]
pub enum Phase {
    /// The radio's first identification.
    Opening,
    /// A command.
    Polling,
    /// The receiver's stop, before a transmission.
    Preempting { request: wire::Transmit },
    /// The transmission.
    Sending { request: wire::Transmit },
    /// The transmitter's stop.
    Quieting { outcome: Result<i64, String> },
    /// The receiver's stop, before it is configured anew.
    Retuning,
    /// The start of a receiver that was configured anew.
    Restarting,
    /// The start of a receiver that had given way.
    Resuming,
    /// A transfer.
    Receiving,
    /// The stop of a radio that failed.
    Resetting,
    /// The identification of a radio that failed.
    Probing,
    /// The start of a radio that failed.
    Reviving,
    /// The end of a pause.
    Parked,
    /// The last stop.
    Closing,
    Closed,
}

/// What a step tells the world.
#[derive(Debug)]
pub struct Output {
    /// Events for every client, in order.
    pub messages: Vec<Message>,
    /// The answer to the command in progress.
    pub reply: Option<Reply>,
}

/// What an event message says.
pub enum Said {
    State { state: DeviceState },
    Frame { frequency: u64, timings: Seq<i64>, rssi: u16, timestamp_ms: u64 },
    Other,
}

/// What an event message says. An event carries the protocol's version, and
/// belongs to no request.
pub open spec fn said_in(message: Message) -> Said {
    if message.v != wire::PROTOCOL_VERSION || message.id is Some {
        Said::Other
    } else {
        match message.payload {
            MessagePayload::DeviceState { state } => Said::State { state },
            MessagePayload::RxFrame(frame) => Said::Frame {
                frequency: frame.frequency,
                timings: frame.timings@,
                rssi: frame.rssi,
                timestamp_ms: frame.timestamp_ms,
            },
            _ => Said::Other,
        }
    }
}

/// What event messages say.
pub open spec fn spoken(messages: Seq<Message>) -> Seq<Said> {
    messages.map_values(|message: Message| said_in(message))
}

/// The answer to a command, as a value.
pub enum Answer {
    Transmitted { outcome: Result<i64, String> },
    Configured { outcome: Result<(), String> },
    Status { state: Control },
}

/// The state of an arbiter.
pub struct Control {
    pub config: Config,
    pub rx_enabled: bool,
    pub rx_frequency: u64,
    pub rx_running: bool,
    pub faulted: bool,
    pub retry_at_ms: u64,
    pub backoff_ms: u64,
    pub device: Option<String>,
    pub counters: Counters,
    pub published: Option<DeviceState>,
    pub listening: Listening,
    pub phase: Phase,
}

/// What a step leads to.
pub struct Outcome {
    pub state: Control,
    pub said: Seq<Said>,
    pub answer: Option<Answer>,
}

/// What is to be done next, as a value.
pub enum Deed {
    Describe,
    Poll { wait: bool },
    StartRx { frequency_hz: u64 },
    Read,
    Stop,
    Transmit { params: TxParams, samples: Seq<u8> },
    Sleep { ms: u64 },
    Exit,
}

/// A counter one higher, stopping at the largest number it holds.
pub open spec fn counted(count: u64) -> u64 {
    if count < u64::MAX {
        (count + 1) as u64
    } else {
        u64::MAX
    }
}

/// The sum of two times, stopping at the latest.
pub open spec fn later(now_ms: u64, wait_ms: u64) -> u64 {
    if now_ms + wait_ms > u64::MAX {
        u64::MAX
    } else {
        (now_ms + wait_ms) as u64
    }
}

/// Twice the wait, up to the longest.
pub open spec fn doubled(backoff_ms: u64) -> u64 {
    if 2 * backoff_ms > MAX_BACKOFF_MS {
        MAX_BACKOFF_MS
    } else {
        (2 * backoff_ms) as u64
    }
}

/// The frames that bursts are told as, and how many were counted before.
pub open spec fn frames(bursts: Seq<detector::Heard>, frequency: u64, unix_ms: u64) -> Seq<Said> {
    bursts.map_values(
        |burst: detector::Heard|
            Said::Frame {
                frequency,
                timings: burst.timings,
                rssi: burst.peak,
                timestamp_ms: unix_ms,
            },
    )
}

/// A counter so many higher, stopping at the largest number it holds.
pub open spec fn counted_all(count: u64, more: nat) -> u64 {
    if count + more > u64::MAX {
        u64::MAX
    } else {
        (count + more) as u64
    }
}

impl Control {
    /// An arbiter that has not begun.
    pub open spec fn start(config: Config) -> Control {
        Control {
            config,
            rx_enabled: config.rx_enabled,
            rx_frequency: config.rx_frequency,
            rx_running: false,
            faulted: false,
            retry_at_ms: 0,
            backoff_ms: FAULT_BACKOFF_MS,
            device: None,
            counters: Counters::none(),
            published: None,
            listening: Listening::start(config.detector),
            phase: Phase::Opening,
        }
    }

    /// What the radio is doing, between transmissions.
    pub open spec fn device_state(self) -> DeviceState {
        if self.faulted {
            DeviceState::Faulted
        } else if self.rx_running {
            DeviceState::Receiving
        } else {
            DeviceState::Idle
        }
    }

    /// The samples of a request.
    pub open spec fn samples(self, request: wire::Transmit) -> Seq<u8> {
        synthesis::transmission(
            request.timings@,
            request.repeat,
            request.gap_us,
            self.config.sample_rate,
            self.config.tx_amplitude,
        )
    }

    /// Whether the samples of a request, padded, fit into a buffer.
    pub open spec fn renders(self, request: wire::Transmit) -> bool {
        self.samples(request).len() + radio::XFER_ALIGN <= isize::MAX
    }

    /// The radio's settings for a request: its own gain, or else the daemon's.
    pub open spec fn params(self, request: wire::Transmit) -> TxParams {
        TxParams {
            frequency_hz: request.frequency,
            sample_rate: self.config.sample_rate,
            txvga_db: match request.txvga_db {
                Some(gain) => gain,
                None => self.config.txvga_db,
            },
            amp_enable: request.amp,
        }
    }

    /// What is to be done next.
    pub open spec fn due(self) -> Deed {
        match self.phase {
            Phase::Opening => Deed::Describe,
            Phase::Polling => Deed::Poll { wait: !self.rx_enabled },
            Phase::Preempting { .. } => Deed::Stop,
            Phase::Sending { request } => Deed::Transmit {
                params: self.params(request),
                samples: radio::aligned(self.samples(request)),
            },
            Phase::Quieting { .. } => Deed::Stop,
            Phase::Retuning => Deed::Stop,
            Phase::Restarting => Deed::StartRx { frequency_hz: self.rx_frequency },
            Phase::Resuming => Deed::StartRx { frequency_hz: self.rx_frequency },
            Phase::Receiving => Deed::Read,
            Phase::Resetting => Deed::Stop,
            Phase::Probing => Deed::Describe,
            Phase::Reviving => Deed::StartRx { frequency_hz: self.rx_frequency },
            Phase::Parked => Deed::Sleep { ms: FAULT_POLL_MS },
            Phase::Closing => Deed::Stop,
            Phase::Closed => Deed::Exit,
        }
    }

    /// Nothing said.
    pub open spec fn silent(self) -> Outcome {
        Outcome { state: self, said: Seq::empty(), answer: None }
    }

    /// A state said, and remembered as said.
    pub open spec fn announcing(self, state: DeviceState) -> Outcome {
        Outcome {
            state: Control { published: Some(state), ..self },
            said: seq![Said::State { state }],
            answer: None,
        }
    }

    /// The current state said, but only where it has changed: a client
    /// tracking availability should not have to filter a firehose.
    pub open spec fn publishing(self) -> Outcome {
        if self.published == Some(self.device_state()) {
            self.silent()
        } else {
            self.announcing(self.device_state())
        }
    }

    /// A try put off, and the next one twice as far.
    pub open spec fn backing_off(self, now_ms: u64) -> Control {
        Control {
            retry_at_ms: later(now_ms, self.backoff_ms),
            backoff_ms: doubled(self.backoff_ms),
            ..self
        }
    }

    /// The radio failed.
    pub open spec fn faulting(self, now_ms: u64) -> Outcome {
        Control {
            faulted: true,
            rx_running: false,
            counters: Counters {
                device_faults: counted(self.counters.device_faults),
                ..self.counters
            },
            ..self.backing_off(now_ms)
        }.publishing()
    }

    /// In this phase.
    pub open spec fn at(self, phase: Phase) -> Control {
        Control { phase, ..self }
    }

    /// On to what the receiver needs: a transfer where it runs, a start where
    /// it does not, another try where the radio failed and the wait is over.
    pub open spec fn proceeding(self, now_ms: u64) -> Control {
        self.at(
            if !self.rx_enabled {
                Phase::Polling
            } else if self.rx_running {
                Phase::Receiving
            } else if !self.faulted {
                Phase::Resuming
            } else if now_ms < self.retry_at_ms {
                Phase::Parked
            } else {
                Phase::Resetting
            },
        )
    }

    /// The radio handed to a transmission.
    pub open spec fn sending(self, request: wire::Transmit) -> Outcome {
        Control { rx_running: false, ..self.at(Phase::Sending { request }) }.announcing(
            DeviceState::Transmitting,
        )
    }

    /// A transmission over, and the transmitter stopped.
    pub open spec fn sent(self, outcome: Result<i64, String>, now_ms: u64) -> Outcome {
        let told = match outcome {
            Ok(_) => {
                let counted = Control {
                    counters: Counters {
                        transmissions: counted(self.counters.transmissions),
                        ..self.counters
                    },
                    ..self
                };
                // With the receiver wanted and the radio in order, say
                // nothing: the receiver is about to be restarted, which says
                // "receiving". An "idle" in between would have a client
                // tracking availability flap once per transmission.
                if self.rx_enabled && !self.faulted {
                    counted.silent()
                } else {
                    counted.publishing()
                }
            },
            Err(_) => self.faulting(now_ms),
        };
        told.answered(Answer::Transmitted { outcome }, now_ms)
    }

    /// The receiver stopped, to be configured anew. A stale detector would
    /// carry the old band's threshold across, so a new one takes its place.
    pub open spec fn retuned(self, now_ms: u64) -> Outcome {
        let afresh = Control {
            rx_running: false,
            listening: Listening::start(self.config.detector),
            ..self
        };
        if self.rx_enabled {
            afresh.at(Phase::Restarting).silent()
        } else {
            Control { faulted: false, ..afresh }.publishing().answered(
                Answer::Configured { outcome: Ok(()) },
                now_ms,
            )
        }
    }

    /// The receiver that was configured anew started, or not.
    pub open spec fn restarted(self, outcome: Result<(), String>, now_ms: u64) -> Outcome {
        let told = match outcome {
            Ok(_) => Control { rx_running: true, ..self }.publishing(),
            Err(_) => self.faulting(now_ms),
        };
        told.answered(Answer::Configured { outcome }, now_ms)
    }

    /// A command carried out, or begun.
    pub open spec fn commanded(self, command: Command, now_ms: u64) -> Outcome {
        match command {
            Command::Transmit { request } => if self.rx_running {
                self.at(Phase::Preempting { request }).silent()
            } else {
                self.sending(request)
            },
            Command::ConfigureRx { frequency, enabled } => {
                let wanted = Control {
                    rx_frequency: match frequency {
                        Some(frequency) => frequency,
                        None => self.rx_frequency,
                    },
                    rx_enabled: enabled,
                    ..self
                };
                if self.rx_running {
                    wanted.at(Phase::Retuning).silent()
                } else {
                    wanted.retuned(now_ms)
                }
            },
            Command::Status => self.silent().answered(Answer::Status { state: self }, now_ms),
            Command::DeviceArrived => Control {
                retry_at_ms: now_ms,
                backoff_ms: FAULT_BACKOFF_MS,
                ..self
            }.proceeding(now_ms).silent(),
        }
    }

    /// A transfer arrived: the radio works, and what it heard is told.
    pub open spec fn received(self, samples: Seq<u8>, unix_ms: u64) -> Outcome {
        let (listening, heard) = self.listening.steps(envelope::magnitudes(samples));
        let told = Control { faulted: false, backoff_ms: FAULT_BACKOFF_MS, ..self }.publishing();
        Outcome {
            state: Control {
                listening,
                counters: Counters {
                    rx_frames: counted_all(self.counters.rx_frames, heard.len()),
                    ..self.counters
                },
                ..told.state.at(Phase::Polling)
            },
            said: told.said + frames(heard, self.rx_frequency, unix_ms),
            answer: None,
        }
    }

    /// A step: what an event leads to. One that is not waited for leads to
    /// nothing.
    pub open spec fn stepped(self, event: Event, moment: Moment) -> Outcome {
        let now_ms = moment.now_ms;
        match (self.phase, event) {
            (Phase::Opening, Event::Described(outcome)) => Control {
                device: match outcome {
                    Ok(description) => Some(description),
                    Err(_) => None,
                },
                ..self.at(Phase::Polling)
            }.silent(),
            (Phase::Polling, Event::Command(command)) => self.commanded(command, now_ms),
            (Phase::Polling, Event::NoCommand) => self.proceeding(now_ms).silent(),
            (Phase::Polling, Event::Closed) => self.at(Phase::Closing).silent(),
            (Phase::Preempting { request }, Event::Stopped(outcome)) => match outcome {
                Ok(_) => self.sending(request),
                Err(error) => self.faulting(now_ms).answered(
                    Answer::Transmitted { outcome: Err(error) },
                    now_ms,
                ),
            },
            (Phase::Sending { request }, Event::Transmitted(outcome)) => self.at(
                Phase::Quieting {
                    outcome: match outcome {
                        Ok(_) => Ok(request.reported()),
                        Err(error) => Err(error),
                    },
                },
            ).silent(),
            (Phase::Quieting { outcome }, Event::Stopped(_)) => self.sent(outcome, now_ms),
            (Phase::Retuning, Event::Stopped(_)) => self.retuned(now_ms),
            (Phase::Restarting, Event::Started(outcome)) => self.restarted(outcome, now_ms),
            (Phase::Resuming, Event::Started(outcome)) => match outcome {
                Ok(_) => Control { rx_running: true, ..self.at(Phase::Receiving) }.publishing(),
                Err(_) => self.at(Phase::Polling).faulting(now_ms),
            },
            (Phase::Receiving, Event::Received(outcome)) => match outcome {
                Ok(samples) => self.received(samples@, moment.unix_ms),
                Err(_) => self.at(Phase::Polling).faulting(now_ms),
            },
            (Phase::Resetting, Event::Stopped(_)) => self.at(Phase::Probing).silent(),
            (Phase::Probing, Event::Described(outcome)) => match outcome {
                Ok(description) => Control {
                    device: Some(description),
                    ..self.at(Phase::Reviving)
                }.silent(),
                Err(_) => self.backing_off(now_ms).at(Phase::Polling).silent(),
            },
            (Phase::Reviving, Event::Started(outcome)) => match outcome {
                Ok(_) => Control { rx_running: true, ..self.at(Phase::Receiving) }.silent(),
                Err(_) => self.at(Phase::Polling).faulting(now_ms),
            },
            (Phase::Parked, Event::Slept) => self.at(Phase::Polling).silent(),
            (Phase::Closing, Event::Stopped(_)) => self.at(Phase::Closed).silent(),
            _ => self.silent(),
        }
    }

    /// Whether an event can be taken: a request to transmit has to fit into a
    /// buffer.
    pub open spec fn admits(self, event: Event) -> bool {
        event matches Event::Command(Command::Transmit { request }) ==> self.renders(request)
    }

    /// Whether the request in progress, if there is one, fits into a buffer.
    pub open spec fn renderable(self) -> bool {
        match self.phase {
            Phase::Preempting { request } => self.renders(request),
            Phase::Sending { request } => self.renders(request),
            _ => true,
        }
    }
}

impl Outcome {
    /// A command answered, and the radio's business taken up again.
    pub open spec fn answered(self, answer: Answer, now_ms: u64) -> Outcome {
        Outcome { state: self.state.proceeding(now_ms), answer: Some(answer), ..self }
    }
}

/// Whether an action is the deed that is due.
pub open spec fn does(action: Action, deed: Deed) -> bool {
    match action {
        Action::Describe => deed is Describe,
        Action::Poll { wait } => deed == (Deed::Poll { wait }),
        Action::StartRx { frequency_hz } => deed == (Deed::StartRx { frequency_hz }),
        Action::Read => deed is Read,
        Action::Stop => deed is Stop,
        Action::Transmit { params, samples } => deed == (Deed::Transmit {
            params,
            samples: samples@,
        }),
        Action::Sleep { ms } => deed == (Deed::Sleep { ms }),
        Action::Exit => deed is Exit,
    }
}

/// Whether a status tells a state.
pub open spec fn tells(status: Status, state: Control) -> bool {
    &&& status.daemon_version@ == DAEMON_VERSION@
    &&& status.protocol_version == wire::PROTOCOL_VERSION
    &&& status.state == state.device_state()
    &&& status.device == state.device
    &&& status.rx == (RxStatus {
        enabled: state.rx_enabled,
        frequency: state.rx_frequency,
        sample_rate: state.config.sample_rate,
        threshold: state.listening.threshold,
    })
    &&& status.counters == (Counters {
        burst_overflows: state.listening.gathering.overflows,
        ..state.counters
    })
}

/// Whether a reply is the answer that is due.
pub open spec fn answers(reply: Option<Reply>, answer: Option<Answer>) -> bool {
    match (reply, answer) {
        (None, None) => true,
        (Some(Reply::Transmitted(outcome)), Some(due)) => due == (Answer::Transmitted { outcome }),
        (Some(Reply::Configured(outcome)), Some(due)) => due == (Answer::Configured { outcome }),
        (Some(Reply::Status(status)), Some(Answer::Status { state })) => tells(*status, state),
        _ => false,
    }
}

/// The arbiter's decisions. See the module's own words.
pub struct Arbiter {
    config: Config,
    rx_enabled: bool,
    rx_frequency: u64,
    rx_running: bool,
    faulted: bool,
    retry_at_ms: u64,
    backoff_ms: u64,
    device: Option<String>,
    counters: Counters,
    published: Option<DeviceState>,
    detector: Detector,
    phase: Phase,
}

impl View for Arbiter {
    type V = Control;

    closed spec fn view(&self) -> Control {
        Control {
            config: self.config,
            rx_enabled: self.rx_enabled,
            rx_frequency: self.rx_frequency,
            rx_running: self.rx_running,
            faulted: self.faulted,
            retry_at_ms: self.retry_at_ms,
            backoff_ms: self.backoff_ms,
            device: self.device,
            counters: self.counters,
            published: self.published,
            listening: self.detector@,
            phase: self.phase,
        }
    }
}

impl Arbiter {
    /// The detector is in order, the request in progress can be rendered, and
    /// the wait is within its bounds.
    pub closed spec fn wf(self) -> bool {
        &&& self.detector.wf()
        &&& self@.renderable()
        &&& FAULT_BACKOFF_MS <= self.backoff_ms <= MAX_BACKOFF_MS
    }

    /// An arbiter that has yet to ask the radio who it is.
    pub fn new(config: Config) -> (result: Arbiter)
        ensures
            result@ == Control::start(config),
            result.wf(),
    {
        Arbiter {
            rx_enabled: config.rx_enabled,
            rx_frequency: config.rx_frequency,
            rx_running: false,
            faulted: false,
            retry_at_ms: 0,
            backoff_ms: FAULT_BACKOFF_MS,
            device: None,
            counters: Counters::default(),
            published: None,
            detector: Detector::new(config.detector),
            phase: Phase::Opening,
            config,
        }
    }

    /// What to do next.
    pub fn action(&self) -> (result: Action)
        requires
            self.wf(),
        ensures
            does(result, self@.due()),
    {
        match &self.phase {
            Phase::Opening => Action::Describe,
            Phase::Polling => Action::Poll { wait: !self.rx_enabled },
            Phase::Preempting { .. } => Action::Stop,
            Phase::Sending { request } => self.transmission(request),
            Phase::Quieting { .. } => Action::Stop,
            Phase::Retuning => Action::Stop,
            Phase::Restarting => Action::StartRx { frequency_hz: self.rx_frequency },
            Phase::Resuming => Action::StartRx { frequency_hz: self.rx_frequency },
            Phase::Receiving => Action::Read,
            Phase::Resetting => Action::Stop,
            Phase::Probing => Action::Describe,
            Phase::Reviving => Action::StartRx { frequency_hz: self.rx_frequency },
            Phase::Parked => Action::Sleep { ms: FAULT_POLL_MS },
            Phase::Closing => Action::Stop,
            Phase::Closed => Action::Exit,
        }
    }

    fn transmission(&self, request: &wire::Transmit) -> (result: Action)
        requires
            self@.renders(*request),
        ensures
            does(
                result,
                Deed::Transmit {
                    params: self@.params(*request),
                    samples: radio::aligned(self@.samples(*request)),
                },
            ),
    {
        let mut samples: Vec<u8> = synthesis::render_transmission(
            &request.timings,
            request.repeat,
            request.gap_us,
            self.config.sample_rate,
            self.config.tx_amplitude,
        );
        proof {
            radio::padding_aligns(samples@);
        }
        radio::pad_to_alignment(&mut samples);
        let txvga_db: u16 = match request.txvga_db {
            Some(gain) => gain,
            None => self.config.txvga_db,
        };
        Action::Transmit {
            params: TxParams {
                frequency_hz: request.frequency,
                sample_rate: self.config.sample_rate,
                txvga_db,
                amp_enable: request.amp,
            },
            samples,
        }
    }

    fn device_state(&self) -> (result: DeviceState)
        ensures
            result == self@.device_state(),
    {
        if self.faulted {
            DeviceState::Faulted
        } else if self.rx_running {
            DeviceState::Receiving
        } else {
            DeviceState::Idle
        }
    }

    fn announce(&mut self, state: DeviceState, messages: &mut Vec<Message>)
        requires
            old(self).wf(),
        ensures
            final(self).wf(),
            final(self)@ == old(self)@.announcing(state).state,
            spoken(final(messages)@) == spoken(old(messages)@) + old(self)@.announcing(state).said,
    {
        self.published = Some(state);
        messages.push(Message::event(MessagePayload::DeviceState { state }));
        assert(spoken(messages@) =~= spoken(old(messages)@) + seq![Said::State { state }]);
    }

    /// Announce the current state, but only when it has actually changed.
    fn publish(&mut self, messages: &mut Vec<Message>)
        requires
            old(self).wf(),
        ensures
            final(self).wf(),
            final(self)@ == old(self)@.publishing().state,
            spoken(final(messages)@) == spoken(old(messages)@) + old(self)@.publishing().said,
    {
        let state: DeviceState = self.device_state();
        let told: bool = match self.published {
            Some(published) => published == state,
            None => false,
        };
        if told {
            assert(spoken(messages@) =~= spoken(messages@) + Seq::<Said>::empty());
        } else {
            self.announce(state, messages);
        }
    }

    fn back_off(&mut self, now_ms: u64)
        requires
            old(self).wf(),
        ensures
            final(self).wf(),
            final(self)@ == old(self)@.backing_off(now_ms),
    {
        self.retry_at_ms = now_ms.saturating_add(self.backoff_ms);
        self.backoff_ms = if 2 * self.backoff_ms > MAX_BACKOFF_MS {
            MAX_BACKOFF_MS
        } else {
            2 * self.backoff_ms
        };
    }

    fn fault(&mut self, now_ms: u64, messages: &mut Vec<Message>)
        requires
            old(self).wf(),
        ensures
            final(self).wf(),
            final(self)@ == old(self)@.faulting(now_ms).state,
            spoken(final(messages)@) == spoken(old(messages)@) + old(self)@.faulting(now_ms).said,
    {
        self.back_off(now_ms);
        self.faulted = true;
        self.rx_running = false;
        self.counters.device_faults = self.counters.device_faults.saturating_add(1);
        self.publish(messages);
    }

    /// Move on to what the receiver needs.
    fn proceed(&mut self, now_ms: u64)
        requires
            old(self).wf(),
        ensures
            final(self).wf(),
            final(self)@ == old(self)@.proceeding(now_ms),
    {
        self.phase = if !self.rx_enabled {
            Phase::Polling
        } else if self.rx_running {
            Phase::Receiving
        } else if !self.faulted {
            Phase::Resuming
        } else if now_ms < self.retry_at_ms {
            Phase::Parked
        } else {
            Phase::Resetting
        };
    }

    fn send(&mut self, request: wire::Transmit, messages: &mut Vec<Message>)
        requires
            old(self).wf(),
            old(self)@.renders(request),
        ensures
            final(self).wf(),
            final(self)@ == old(self)@.sending(request).state,
            spoken(final(messages)@) == spoken(old(messages)@) + old(self)@.sending(request).said,
    {
        self.rx_running = false;
        self.phase = Phase::Sending { request };
        self.announce(DeviceState::Transmitting, messages);
    }

    fn finish_sending(
        &mut self,
        outcome: Result<i64, String>,
        now_ms: u64,
        messages: &mut Vec<Message>,
    ) -> (reply: Option<Reply>)
        requires
            old(self).wf(),
        ensures
            final(self).wf(),
            final(self)@ == old(self)@.sent(outcome, now_ms).state,
            spoken(final(messages)@) == spoken(old(messages)@) + old(self)@.sent(
                outcome,
                now_ms,
            ).said,
            answers(reply, old(self)@.sent(outcome, now_ms).answer),
    {
        match &outcome {
            Ok(_) => {
                self.counters.transmissions = self.counters.transmissions.saturating_add(1);
                if self.rx_enabled && !self.faulted {
                    assert(spoken(messages@) =~= spoken(messages@) + Seq::<Said>::empty());
                } else {
                    self.publish(messages);
                }
            },
            Err(_) => self.fault(now_ms, messages),
        }
        self.proceed(now_ms);
        Some(Reply::Transmitted(outcome))
    }

    fn retune(&mut self, now_ms: u64, messages: &mut Vec<Message>) -> (reply: Option<Reply>)
        requires
            old(self).wf(),
        ensures
            final(self).wf(),
            final(self)@ == old(self)@.retuned(now_ms).state,
            spoken(final(messages)@) == spoken(old(messages)@) + old(self)@.retuned(now_ms).said,
            answers(reply, old(self)@.retuned(now_ms).answer),
    {
        self.rx_running = false;
        self.detector = Detector::new(self.config.detector);
        if self.rx_enabled {
            // Bring the receiver up now, so that the reply says whether it
            // actually came up. Deferring it would have "enable the receiver"
            // answer with a cheerful "idle" and only then fault.
            self.phase = Phase::Restarting;
            assert(spoken(messages@) =~= spoken(messages@) + Seq::<Said>::empty());
            None
        } else {
            self.faulted = false;
            self.publish(messages);
            self.proceed(now_ms);
            Some(Reply::Configured(Ok(())))
        }
    }

    fn finish_restart(
        &mut self,
        outcome: Result<(), String>,
        now_ms: u64,
        messages: &mut Vec<Message>,
    ) -> (reply: Option<Reply>)
        requires
            old(self).wf(),
        ensures
            final(self).wf(),
            final(self)@ == old(self)@.restarted(outcome, now_ms).state,
            spoken(final(messages)@) == spoken(old(messages)@) + old(self)@.restarted(
                outcome,
                now_ms,
            ).said,
            answers(reply, old(self)@.restarted(outcome, now_ms).answer),
    {
        match &outcome {
            Ok(_) => {
                self.rx_running = true;
                self.publish(messages);
            },
            Err(_) => self.fault(now_ms, messages),
        }
        self.proceed(now_ms);
        Some(Reply::Configured(outcome))
    }

    fn status(&self) -> (result: Box<Status>)
        ensures
            tells(*result, self@),
    {
        let overflows: u64 = self.detector.overflows();
        Box::new(
            Status {
                daemon_version: DAEMON_VERSION.to_owned(),
                protocol_version: wire::PROTOCOL_VERSION,
                state: self.device_state(),
                device: match &self.device {
                    Some(device) => Some(device.clone()),
                    None => None,
                },
                rx: RxStatus {
                    enabled: self.rx_enabled,
                    frequency: self.rx_frequency,
                    sample_rate: self.config.sample_rate,
                    threshold: self.detector.threshold(),
                },
                counters: Counters { burst_overflows: overflows, ..self.counters },
            },
        )
    }

    fn handle(&mut self, command: Command, now_ms: u64, messages: &mut Vec<Message>) -> (reply:
        Option<Reply>)
        requires
            old(self).wf(),
            old(self)@.admits(Event::Command(command)),
        ensures
            final(self).wf(),
            final(self)@ == old(self)@.commanded(command, now_ms).state,
            spoken(final(messages)@) == spoken(old(messages)@) + old(self)@.commanded(
                command,
                now_ms,
            ).said,
            answers(reply, old(self)@.commanded(command, now_ms).answer),
    {
        match command {
            Command::Transmit { request } => {
                if self.rx_running {
                    self.phase = Phase::Preempting { request };
                    assert(spoken(messages@) =~= spoken(messages@) + Seq::<Said>::empty());
                } else {
                    self.send(request, messages);
                }
                None
            },
            Command::ConfigureRx { frequency, enabled } => {
                if let Some(frequency) = frequency {
                    self.rx_frequency = frequency;
                }
                self.rx_enabled = enabled;
                if self.rx_running {
                    self.phase = Phase::Retuning;
                    assert(spoken(messages@) =~= spoken(messages@) + Seq::<Said>::empty());
                    None
                } else {
                    self.retune(now_ms, messages)
                }
            },
            Command::Status => {
                let status: Box<Status> = self.status();
                self.proceed(now_ms);
                assert(spoken(messages@) =~= spoken(messages@) + Seq::<Said>::empty());
                Some(Reply::Status(status))
            },
            Command::DeviceArrived => {
                self.retry_at_ms = now_ms;
                self.backoff_ms = FAULT_BACKOFF_MS;
                self.proceed(now_ms);
                assert(spoken(messages@) =~= spoken(messages@) + Seq::<Said>::empty());
                None
            },
        }
    }

    /// One transfer's worth of receiving.
    #[verifier::rlimit(50)]
    #[verifier::spinoff_prover]
    fn receive(&mut self, samples: Vec<u8>, unix_ms: u64, messages: &mut Vec<Message>)
        requires
            old(self).wf(),
        ensures
            final(self).wf(),
            final(self)@ == old(self)@.received(samples@, unix_ms).state,
            spoken(final(messages)@) == spoken(old(messages)@) + old(self)@.received(
                samples@,
                unix_ms,
            ).said,
    {
        let ghost before = self@;
        self.phase = Phase::Polling;
        self.faulted = false;
        self.backoff_ms = FAULT_BACKOFF_MS;
        self.publish(messages);
        let ghost told = spoken(messages@);
        let mut bursts: Vec<Burst> = self.detector.push(&samples);
        let ghost heard = detector::heard(bursts@);
        let count: u64 = bursts.len() as u64;
        self.counters.rx_frames = self.counters.rx_frames.saturating_add(count);
        self.tell_frames(&mut bursts, unix_ms, messages);
        assert(spoken(messages@) =~= spoken(old(messages)@) + before.received(
            samples@,
            unix_ms,
        ).said);
    }

    /// Tell the bursts, in order.
    fn tell_frames(&self, bursts: &mut Vec<Burst>, unix_ms: u64, messages: &mut Vec<Message>)
        ensures
            spoken(final(messages)@) == spoken(old(messages)@) + frames(
                detector::heard(old(bursts)@),
                self@.rx_frequency,
                unix_ms,
            ),
    {
        let ghost all = bursts@;
        let ghost told = frames(detector::heard(all), self@.rx_frequency, unix_ms);
        let ghost before = spoken(messages@);
        let count: usize = bursts.len();
        let mut k: usize = 0;
        while k < count
            invariant
                k <= count,
                count == all.len(),
                bursts@.len() == count,
                forall|j: int| k <= j < count ==> bursts@[j] == all[j],
                told == frames(detector::heard(all), self@.rx_frequency, unix_ms),
                spoken(messages@) == before + told.take(k as int),
            decreases count - k,
        {
            let ghost index = k as int;
            let peak: u16 = bursts[k].peak;
            let mut burst = Burst { timings: Vec::new(), peak: 0 };
            std::mem::swap(&mut burst, &mut bursts[k]);
            assert(burst == all[index] && peak == all[index].peak);
            let ghost earlier = messages@;
            messages.push(
                Message::event(
                    MessagePayload::RxFrame(
                        RxFrame {
                            frequency: self.rx_frequency,
                            timings: burst.timings,
                            rssi: peak,
                            timestamp_ms: unix_ms,
                        },
                    ),
                ),
            );
            k = k + 1;
            proof {
                assert(detector::heard(all)[index].timings == all[index].timings@);
                assert(said_in(messages@.last()) == told[index]);
                assert(spoken(messages@) =~= spoken(earlier).push(told[index]));
                assert(told.take(k as int) =~= told.take(index).push(told[index]));
            }
            assert(spoken(messages@) =~= before + told.take(k as int));
        }
        assert(told.take(count as int) =~= told);
    }

    /// Take an event, and decide what follows from it.
    #[verifier::rlimit(80)]
    #[verifier::spinoff_prover]
    pub fn step(&mut self, event: Event, moment: Moment) -> (output: Output)
        requires
            old(self).wf(),
            old(self)@.admits(event),
        ensures
            final(self).wf(),
            final(self)@ == old(self)@.stepped(event, moment).state,
            spoken(output.messages@) == old(self)@.stepped(event, moment).said,
            answers(output.reply, old(self)@.stepped(event, moment).answer),
    {
        let now_ms: u64 = moment.now_ms;
        let mut messages: Vec<Message> = Vec::new();
        let mut reply: Option<Reply> = None;
        let mut phase = Phase::Polling;
        std::mem::swap(&mut phase, &mut self.phase);
        assert(spoken(messages@) =~= Seq::<Said>::empty());
        match (phase, event) {
            (Phase::Opening, Event::Described(outcome)) => {
                self.device = match outcome {
                    Ok(description) => Some(description),
                    Err(_) => None,
                };
            },
            (Phase::Polling, Event::Command(command)) => {
                reply = self.handle(command, now_ms, &mut messages);
            },
            (Phase::Polling, Event::NoCommand) => self.proceed(now_ms),
            (Phase::Polling, Event::Closed) => {
                self.phase = Phase::Closing;
            },
            (Phase::Preempting { request }, Event::Stopped(outcome)) => match outcome {
                Ok(_) => self.send(request, &mut messages),
                Err(error) => {
                    self.fault(now_ms, &mut messages);
                    self.proceed(now_ms);
                    reply = Some(Reply::Transmitted(Err(error)));
                },
            },
            (Phase::Sending { request }, Event::Transmitted(outcome)) => {
                self.phase = Phase::Quieting {
                    outcome: match outcome {
                        Ok(_) => Ok(request.air_time_us()),
                        Err(error) => Err(error),
                    },
                };
            },
            (Phase::Quieting { outcome }, Event::Stopped(_)) => {
                reply = self.finish_sending(outcome, now_ms, &mut messages);
            },
            (Phase::Retuning, Event::Stopped(_)) => {
                reply = self.retune(now_ms, &mut messages);
            },
            (Phase::Restarting, Event::Started(outcome)) => {
                reply = self.finish_restart(outcome, now_ms, &mut messages);
            },
            (Phase::Resuming, Event::Started(outcome)) => match outcome {
                Ok(_) => {
                    self.rx_running = true;
                    self.phase = Phase::Receiving;
                    self.publish(&mut messages);
                },
                Err(_) => self.fault(now_ms, &mut messages),
            },
            (Phase::Receiving, Event::Received(outcome)) => match outcome {
                Ok(samples) => self.receive(samples, moment.unix_ms, &mut messages),
                Err(_) => self.fault(now_ms, &mut messages),
            },
            (Phase::Resetting, Event::Stopped(_)) => {
                self.phase = Phase::Probing;
            },
            (Phase::Probing, Event::Described(outcome)) => match outcome {
                Ok(description) => {
                    self.device = Some(description);
                    self.phase = Phase::Reviving;
                },
                Err(_) => self.back_off(now_ms),
            },
            (Phase::Reviving, Event::Started(outcome)) => match outcome {
                Ok(_) => {
                    self.rx_running = true;
                    self.phase = Phase::Receiving;
                },
                Err(_) => self.fault(now_ms, &mut messages),
            },
            (Phase::Parked, Event::Slept) => {},
            (Phase::Closing, Event::Stopped(_)) => {
                self.phase = Phase::Closed;
            },
            (phase, _) => {
                self.phase = phase;
            },
        }
        assert(spoken(messages@) =~= old(self)@.stepped(event, moment).said);
        Output { messages, reply }
    }
}

/// Have a radio perform an action, and say how it went; `None` for what no
/// radio is needed for.
///
/// The radio is called once, with what the action says, and the event holds
/// what it returned: of a read, what it left in the buffer.
pub fn perform<T: Transceiver>(device: &mut T, action: Action) -> (result: Option<Event>)
    ensures
        match action {
            Action::Describe => result matches Some(Event::Described(outcome)) && exists|d: &mut T|
                *d == *old(device) && *final(d) == *final(device) && #[trigger] call_ensures(
                    T::describe,
                    (d,),
                    outcome,
                ),
            Action::StartRx { frequency_hz } => result matches Some(Event::Started(outcome))
                && exists|d: &mut T|
                *d == *old(device) && *final(d) == *final(device) && #[trigger] call_ensures(
                    T::start_rx,
                    (d, frequency_hz),
                    outcome,
                ),
            Action::Read => result matches Some(Event::Received(received)) && exists|
                d: &mut T,
                buffer: &mut Vec<u8>,
                outcome: Result<(), String>,
            |
                *d == *old(device) && *final(d) == *final(device) && buffer@ == Seq::<u8>::empty()
                    && #[trigger] call_ensures(T::read, (d, buffer), outcome) && received == (
                match outcome {
                    Ok(_) => Ok::<Vec<u8>, String>(*final(buffer)),
                    Err(error) => Err(error),
                }),
            Action::Stop => result matches Some(Event::Stopped(outcome)) && exists|d: &mut T|
                *d == *old(device) && *final(d) == *final(device) && #[trigger] call_ensures(
                    T::stop,
                    (d,),
                    outcome,
                ),
            Action::Transmit { params, samples } => result matches Some(
                Event::Transmitted(outcome),
            ) && exists|d: &mut T, given: &[u8]|
                *d == *old(device) && *final(d) == *final(device) && given@ == samples@
                    && #[trigger] call_ensures(T::transmit, (d, &params, given), outcome),
            _ => result is None && *final(device) == *old(device),
        },
{
    match action {
        Action::Describe => Some(Event::Described(device.describe())),
        Action::StartRx { frequency_hz } => Some(Event::Started(device.start_rx(frequency_hz))),
        Action::Read => {
            let mut samples: Vec<u8> = Vec::new();
            match device.read(&mut samples) {
                Ok(_) => Some(Event::Received(Ok(samples))),
                Err(error) => Some(Event::Received(Err(error))),
            }
        },
        Action::Stop => Some(Event::Stopped(device.stop())),
        Action::Transmit { params, samples } => Some(
            Event::Transmitted(device.transmit(&params, &samples)),
        ),
        Action::Poll { .. } => None,
        Action::Sleep { .. } => None,
        Action::Exit => None,
    }
}

} // verus!
