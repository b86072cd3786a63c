//! The half-duplex arbiter, run against a fake device and a fake clock.

use std::collections::VecDeque;

use hackrf_proxyd::engine::{
    perform, Action, Arbiter, Command, Config, Event, Moment, Reply, Transceiver, TxParams,
    DAEMON_VERSION, FAULT_BACKOFF_MS, FAULT_POLL_MS, MAX_BACKOFF_MS,
};
use hackrf_proxyd::ook::{synthesize, BYTES_PER_SAMPLE};
use hackrf_proxyd::radio::XFER_ALIGN;
use hackrf_proxyd::wire::{DeviceState, Message, MessagePayload, Status, Transmit};

/// What a fake device was asked to do, in order.
#[derive(Debug, Clone, PartialEq, Eq)]
enum Call {
    StartRx(u64),
    Read,
    Stop,
    Transmit { params: TxParams, samples: usize },
    Describe,
}

#[derive(Default)]
struct FakeRadio {
    calls: Vec<Call>,
    /// Fed to the arbiter one transfer at a time.
    rx_data: VecDeque<Vec<u8>>,
    fail_reads: usize,
    fail_start_rx: usize,
    fail_describe: usize,
    fail_transmit: usize,
    fail_stop: usize,
}

fn failing(count: &mut usize) -> bool {
    if *count > 0 {
        *count -= 1;
        true
    } else {
        false
    }
}

impl Transceiver for FakeRadio {
    fn start_rx(&mut self, frequency_hz: u64) -> Result<(), String> {
        self.calls.push(Call::StartRx(frequency_hz));
        if failing(&mut self.fail_start_rx) {
            return Err("radio is not there".into());
        }
        Ok(())
    }

    fn read(&mut self, out: &mut Vec<u8>) -> Result<(), String> {
        self.calls.push(Call::Read);
        if failing(&mut self.fail_reads) {
            return Err("USB went away".into());
        }
        out.clear();
        match self.rx_data.pop_front() {
            None => out.resize(4096, 0), // silence
            Some(data) => out.extend_from_slice(&data),
        }
        Ok(())
    }

    fn stop(&mut self) -> Result<(), String> {
        self.calls.push(Call::Stop);
        if failing(&mut self.fail_stop) {
            return Err("it does not stop".into());
        }
        Ok(())
    }

    fn transmit(&mut self, params: &TxParams, samples: &[u8]) -> Result<(), String> {
        self.calls.push(Call::Transmit { params: *params, samples: samples.len() });
        if failing(&mut self.fail_transmit) {
            return Err("nothing left the antenna".into());
        }
        Ok(())
    }

    fn describe(&mut self) -> Result<String, String> {
        self.calls.push(Call::Describe);
        if failing(&mut self.fail_describe) {
            return Err("no answer".into());
        }
        Ok("fake HackRF".into())
    }
}

/// The loop that a thread would run, one turn at a time.
struct Harness {
    radio: FakeRadio,
    arbiter: Arbiter,
    inbox: VecDeque<Command>,
    closed: bool,
    now_ms: u64,
    messages: Vec<Message>,
    replies: Vec<Reply>,
}

impl Harness {
    fn start(config: Config, radio: FakeRadio) -> Self {
        Self {
            radio,
            arbiter: Arbiter::new(config),
            inbox: VecDeque::new(),
            closed: false,
            now_ms: 0,
            messages: Vec::new(),
            replies: Vec::new(),
        }
    }

    /// One action; false where the thread would wait, or is done.
    fn turn(&mut self) -> bool {
        let event = match self.arbiter.action() {
            Action::Exit => return false,
            Action::Poll { wait } => match self.inbox.pop_front() {
                Some(command) => Event::Command(command),
                None if self.closed => Event::Closed,
                None if wait => return false,
                None => Event::NoCommand,
            },
            Action::Sleep { ms } => {
                self.now_ms += ms;
                Event::Slept
            }
            action => perform(&mut self.radio, action).expect("the device performs the rest"),
        };
        let moment = Moment { now_ms: self.now_ms, unix_ms: 1_700_000_000_000 + self.now_ms };
        let output = self.arbiter.step(event, moment);
        self.messages.extend(output.messages);
        self.replies.extend(output.reply);
        true
    }

    fn run(&mut self, turns: usize) {
        for _ in 0..turns {
            if !self.turn() {
                return;
            }
        }
    }

    /// Run until a reply comes.
    fn ask(&mut self, command: Command) -> Reply {
        assert!(self.replies.is_empty());
        self.inbox.push_back(command);
        for _ in 0..100 {
            if let Some(reply) = self.replies.pop() {
                return reply;
            }
            self.turn();
        }
        panic!("the arbiter should reply");
    }

    fn transmit(&mut self, request: Transmit) -> Result<i64, String> {
        match self.ask(Command::Transmit { request }) {
            Reply::Transmitted(outcome) => outcome,
            other => panic!("wrong reply: {other:?}"),
        }
    }

    fn configure_rx(&mut self, frequency: Option<u64>, enabled: bool) -> Result<(), String> {
        match self.ask(Command::ConfigureRx { frequency, enabled }) {
            Reply::Configured(outcome) => outcome,
            other => panic!("wrong reply: {other:?}"),
        }
    }

    fn status(&mut self) -> Status {
        match self.ask(Command::Status) {
            Reply::Status(status) => *status,
            other => panic!("wrong reply: {other:?}"),
        }
    }

    /// The states announced since the last look.
    fn states(&mut self) -> Vec<DeviceState> {
        std::mem::take(&mut self.messages)
            .into_iter()
            .filter_map(|message| match message.payload {
                MessagePayload::DeviceState { state } => Some(state),
                _ => None,
            })
            .collect()
    }

    fn reads(&self) -> usize {
        self.radio.calls.iter().filter(|call| **call == Call::Read).count()
    }
}

fn config() -> Config {
    let mut config = Config::new(2_000_000, 315_000_000);
    // A window short enough that tests do not have to synthesize a second of
    // signal, but still long enough to contain a whole test burst so the
    // threshold does not move underneath one.
    config.detector.window_samples = 20_000;
    config.detector.min_edges = 3;
    config
}

fn a_frame() -> Transmit {
    Transmit {
        frequency: 315_000_000,
        timings: vec![500, -500, 500],
        repeat: 1,
        gap_us: 4_150,
        txvga_db: None,
        amp: false,
    }
}

#[test]
fn it_receives_by_default() {
    let mut harness = Harness::start(config(), FakeRadio::default());
    harness.run(50);

    let calls: Vec<_> =
        harness.radio.calls.iter().filter(|call| **call != Call::Describe).collect();
    assert_eq!(calls.first(), Some(&&Call::StartRx(315_000_000)));
    assert!(calls.contains(&&Call::Read), "it should be pumping the receiver");
}

#[test]
fn a_transmission_preempts_the_receiver_and_hands_it_back() {
    let mut harness = Harness::start(config(), FakeRadio::default());
    harness.run(50);

    let air_time = harness.transmit(a_frame()).expect("should transmit");
    assert_eq!(air_time, 1500 * 2 + 4_150);
    harness.run(50);

    let calls = &harness.radio.calls;
    let sent = calls.iter().position(|c| matches!(c, Call::Transmit { .. })).unwrap();
    assert_eq!(
        calls[sent - 1],
        Call::Stop,
        "the receiver must be stopped before transmitting"
    );
    assert!(
        calls[sent..].contains(&Call::StartRx(315_000_000)),
        "the receiver must come back afterwards: {calls:?}"
    );
}

#[test]
fn a_command_waits_for_one_transfer_at_the_most() {
    for turns in 5..9 {
        let mut harness = Harness::start(config(), FakeRadio::default());
        harness.run(turns);
        let reads = harness.reads();
        harness.transmit(a_frame()).expect("should transmit");
        assert!(harness.reads() <= reads + 1);
    }
}

#[test]
fn transmit_parameters_come_from_the_request_then_the_config() {
    let mut config = config();
    config.txvga_db = 22;
    let mut harness = Harness::start(config, FakeRadio::default());

    harness.transmit(a_frame()).unwrap();
    harness.transmit(Transmit { txvga_db: Some(40), amp: true, ..a_frame() }).unwrap();

    let sent: Vec<_> = harness
        .radio
        .calls
        .iter()
        .filter_map(|call| match call {
            Call::Transmit { params, .. } => Some(*params),
            _ => None,
        })
        .collect();
    assert_eq!(sent[0].txvga_db, 22, "unset gain falls back to the daemon's");
    assert!(!sent[0].amp_enable, "the amplifier stays off unless asked for");
    assert_eq!(sent[1].txvga_db, 40);
    assert!(sent[1].amp_enable);
}

#[test]
fn disabling_the_receiver_stops_it_and_parks_the_thread() {
    let mut harness = Harness::start(config(), FakeRadio::default());
    harness.run(50);

    harness.configure_rx(None, false).expect("should succeed");
    let quiesced = harness.radio.calls.len();
    harness.run(50);

    assert_eq!(
        harness.radio.calls.len(),
        quiesced,
        "a disabled receiver must not keep touching the radio"
    );
    assert!(!harness.status().rx.enabled);

    // And it must still answer, rather than being wedged on a blocking read.
    harness.transmit(a_frame()).expect("a parked arbiter still transmits");
}

#[test]
fn retuning_restarts_the_receiver_on_the_new_frequency() {
    let mut harness = Harness::start(config(), FakeRadio::default());
    harness.run(50);

    harness.configure_rx(Some(433_920_000), true).expect("should succeed");

    // Already receiving by the time the reply lands, rather than a moment
    // later: a client that enables the receiver and immediately asks for
    // status should not be told "idle".
    assert!(harness.radio.calls.contains(&Call::StartRx(433_920_000)));
    let status = harness.status();
    assert_eq!(status.rx.frequency, 433_920_000);
    assert_eq!(status.state, DeviceState::Receiving);
}

#[test]
fn enabling_a_receiver_that_cannot_start_reports_the_failure() {
    let radio = FakeRadio { fail_start_rx: 1, ..FakeRadio::default() };
    let mut harness = Harness::start(config(), radio);

    assert!(
        harness.configure_rx(None, true).is_err(),
        "the reply must carry the failure, not leave the client to infer it"
    );
}

#[test]
fn a_received_burst_is_published_as_an_event() {
    let mut radio = FakeRadio::default();
    // One window to learn the noise floor, then a burst, then silence long
    // enough to close it.
    radio.rx_data.push_back(vec![0u8; 20_000 * BYTES_PER_SAMPLE]);
    radio.rx_data.push_back(synthesize(&[500, -500, 500, -500, 500], 2_000_000, 100));
    radio.rx_data.push_back(synthesize(&[-20_000], 2_000_000, 100));
    let mut harness = Harness::start(config(), radio);
    harness.run(50);

    let frame = harness
        .messages
        .iter()
        .find_map(|message| match &message.payload {
            MessagePayload::RxFrame(frame) => Some(frame.clone()),
            _ => None,
        })
        .expect("the burst should be published");

    assert_eq!(frame.timings, vec![500, -500, 500, -500, 500]);
    assert_eq!(frame.frequency, 315_000_000);
    assert_eq!(frame.rssi, 100);
    assert_eq!(frame.timestamp_ms, 1_700_000_000_000);
    assert_eq!(harness.status().counters.rx_frames, 1);
}

#[test]
fn state_changes_are_announced_but_not_repeated() {
    let mut harness = Harness::start(config(), FakeRadio::default());
    harness.run(10);
    assert_eq!(harness.states(), vec![DeviceState::Receiving]);

    harness.run(50);
    assert_eq!(
        harness.states(),
        vec![],
        "steady state must not be re-announced every transfer"
    );
}

#[test]
fn a_transmission_does_not_flap_availability_through_idle() {
    // A client tracking availability off device_state should see the radio go
    // busy and come back, not blink through "idle" every time.
    let mut harness = Harness::start(config(), FakeRadio::default());
    harness.run(10);
    assert_eq!(harness.states(), vec![DeviceState::Receiving]);

    harness.transmit(a_frame()).unwrap();
    harness.run(10);

    assert_eq!(
        harness.states(),
        vec![DeviceState::Transmitting, DeviceState::Receiving],
        "expected busy then back, with no idle in between"
    );
}

#[test]
fn a_failing_radio_faults_and_recovers_rather_than_killing_the_daemon() {
    let radio = FakeRadio { fail_reads: 1, ..FakeRadio::default() };
    let mut harness = Harness::start(config(), radio);
    harness.run(6);

    assert_eq!(
        harness.states().last(),
        Some(&DeviceState::Faulted),
        "a read failure should be announced, not fatal"
    );
    assert_eq!(harness.status().counters.device_faults, 1);

    // The backoff is two seconds; the daemon must still be answering.
    assert!(harness.status().counters.rx_frames == 0);
    harness.run(100);
    assert_eq!(
        harness.states(),
        vec![DeviceState::Receiving],
        "it should come back on its own"
    );
    assert!(harness.now_ms >= FAULT_BACKOFF_MS);
}

#[test]
fn recovery_is_only_believed_once_a_transfer_arrives() {
    // It identifies itself and even starts, and yet nothing streams.
    let radio = FakeRadio { fail_reads: 3, ..FakeRadio::default() };
    let mut harness = Harness::start(config(), radio);

    let mut waits = Vec::new();
    for reads in 1..=3 {
        while harness.reads() < reads {
            harness.turn();
        }
        harness.turn();
        waits.push(harness.now_ms);
    }
    assert_eq!(harness.states(), vec![DeviceState::Receiving, DeviceState::Faulted]);
    assert_eq!(harness.status().counters.device_faults, 3);
    assert!((2_000..2_200).contains(&(waits[1] - waits[0])), "{waits:?}");
    assert!((4_000..4_200).contains(&(waits[2] - waits[1])), "the wait doubles: {waits:?}");

    harness.run(200);
    assert_eq!(harness.states(), vec![DeviceState::Receiving]);
}

#[test]
fn the_wait_doubles_up_to_a_minute_and_clears_on_data() {
    let radio = FakeRadio { fail_reads: 8, ..FakeRadio::default() };
    let mut harness = Harness::start(config(), radio);

    let mut moments = Vec::new();
    for reads in 1..=9 {
        while harness.reads() < reads {
            harness.turn();
        }
        moments.push(harness.now_ms);
    }
    let waits: Vec<u64> = moments.windows(2).map(|pair| pair[1] - pair[0]).collect();
    assert_eq!(
        waits,
        vec![2_000, 4_000, 8_000, 16_000, 32_000, MAX_BACKOFF_MS, MAX_BACKOFF_MS, MAX_BACKOFF_MS]
    );

    // Data arrived: the next failure waits for the shortest time again.
    harness.run(20);
    harness.radio.fail_reads = 1;
    let reads = harness.reads();
    while harness.reads() == reads {
        harness.turn();
    }
    let failed = harness.now_ms;
    while harness.reads() == reads + 1 {
        harness.turn();
    }
    assert_eq!(harness.now_ms - failed, FAULT_BACKOFF_MS);
}

#[test]
fn a_radio_that_arrives_is_tried_at_once() {
    let radio = FakeRadio { fail_reads: 1, ..FakeRadio::default() };
    let mut harness = Harness::start(config(), radio);
    harness.run(8);
    assert_eq!(harness.status().state, DeviceState::Faulted);

    let before = harness.now_ms;
    harness.inbox.push_back(Command::DeviceArrived);
    harness.run(20);
    assert_eq!(harness.status().state, DeviceState::Receiving);
    assert!(harness.now_ms - before <= FAULT_POLL_MS, "at most one pause was waited out");
}

#[test]
fn a_radio_that_does_not_answer_is_probed_again() {
    let radio = FakeRadio { fail_describe: 3, fail_start_rx: 1, ..FakeRadio::default() };
    let mut harness = Harness::start(config(), radio);
    harness.run(4);
    let status = harness.status();
    assert_eq!(status.device, None, "it never said who it is");
    assert_eq!(status.state, DeviceState::Faulted);
    assert_eq!(status.counters.device_faults, 1);

    harness.run(300);
    let status = harness.status();
    assert_eq!(status.device.as_deref(), Some("fake HackRF"));
    assert_eq!(status.state, DeviceState::Receiving);
    assert_eq!(status.counters.device_faults, 1, "a probe without answer is no new fault");
    assert_eq!(status.daemon_version, DAEMON_VERSION);
    assert_eq!(status.protocol_version, 1);
}

#[test]
fn a_failed_transmission_is_answered_and_stopped() {
    let radio = FakeRadio { fail_transmit: 1, ..FakeRadio::default() };
    let mut harness = Harness::start(config(), radio);
    harness.run(10);

    assert_eq!(harness.transmit(a_frame()), Err("nothing left the antenna".to_string()));
    let sent = harness.radio.calls.iter().position(|c| matches!(c, Call::Transmit { .. })).unwrap();
    assert_eq!(harness.radio.calls[sent + 1], Call::Stop, "whatever happened");
    let status = harness.status();
    assert_eq!(status.state, DeviceState::Faulted);
    assert_eq!(status.counters.transmissions, 0);
}

#[test]
fn a_receiver_that_cannot_be_stopped_is_not_talked_over() {
    let radio = FakeRadio { fail_stop: 1, ..FakeRadio::default() };
    let mut harness = Harness::start(config(), radio);
    harness.run(10);

    assert_eq!(harness.transmit(a_frame()), Err("it does not stop".to_string()));
    assert!(!harness.radio.calls.iter().any(|c| matches!(c, Call::Transmit { .. })));
}

#[test]
fn what_is_sent_is_rendered_and_aligned() {
    let mut harness = Harness::start(config(), FakeRadio::default());
    harness.transmit(a_frame()).unwrap();
    // Two frames of 1500 µs and a gap of 4150 µs at two samples each, filled
    // up to whole units.
    let bytes: usize = (2 * 3_000 + 8_300) * BYTES_PER_SAMPLE;
    let aligned = bytes.div_ceil(XFER_ALIGN) * XFER_ALIGN;
    assert!(harness.radio.calls.contains(&Call::Transmit {
        params: TxParams {
            frequency_hz: 315_000_000,
            sample_rate: 2_000_000,
            txvga_db: 30,
            amp_enable: false,
        },
        samples: aligned,
    }));
    assert_eq!(harness.status().counters.transmissions, 1);
}

#[test]
fn the_thread_ends_with_its_last_client_and_stops_the_radio() {
    let mut harness = Harness::start(config(), FakeRadio::default());
    harness.run(10);
    harness.closed = true;
    harness.run(10);
    assert!(matches!(harness.arbiter.action(), Action::Exit));
    assert_eq!(harness.radio.calls.last(), Some(&Call::Stop));
}
