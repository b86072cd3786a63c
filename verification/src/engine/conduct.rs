//! What the arbiter does and says, in plain words.

use vstd::prelude::*;

use crate::engine;
use crate::engine::laws;
use crate::engine::{Action, Answer, Command, Control, Deed, Event, Moment, Phase, Reply, Said};
use crate::ook::detector::Listening;
use crate::ook::envelope;
use crate::ook::synthesis;
use crate::radio;
use crate::wire;
use crate::wire::{DeviceState, Message, MessagePayload, Status};

verus! {

/// What is sent is what was asked for: on the request's own frequency, whatever
/// the receiver is tuned to, with its own amplifier setting, with its own gain
/// or else the daemon's, at the daemon's rate; the request's timings, rendered
/// with its repeats and its gap, and then silence up to a whole number of 512
/// bytes.
pub proof fn transmissions_are_as_requested(state: Control)
    requires
        state.due() is Transmit,
    ensures
        state.phase matches Phase::Sending { request } && state.due() matches Deed::Transmit {
            params,
            samples,
        } && {
            let sent = synthesis::transmission(
                request.timings@,
                request.repeat,
                request.gap_us,
                state.config.sample_rate,
                state.config.tx_amplitude,
            );
            &&& params.frequency_hz == request.frequency
            &&& params.sample_rate == state.config.sample_rate
            &&& params.amp_enable == request.amp
            &&& request.txvga_db matches Some(gain) ==> params.txvga_db == gain
            &&& request.txvga_db is None ==> params.txvga_db == state.config.txvga_db
            &&& samples.len() % 512 == 0
            &&& sent.len() <= samples.len() < sent.len() + 512
            &&& forall|k: int| 0 <= k < sent.len() ==> samples[k] == sent[k]
            &&& forall|k: int| sent.len() <= k < samples.len() ==> samples[k] == 0
        },
{
    match state.phase {
        Phase::Sending { request } => {
            radio::padding_aligns(
                synthesis::transmission(
                    request.timings@,
                    request.repeat,
                    request.gap_us,
                    state.config.sample_rate,
                    state.config.tx_amplitude,
                ),
            );
        },
        _ => {},
    }
}

/// A request to transmit is sent as it is, at once where the receiver is not
/// running, and otherwise once it has stopped.
pub proof fn requests_are_sent_unchanged(
    state: Control,
    request: wire::Transmit,
    first: Moment,
    second: Moment,
)
    requires
        state.phase is Polling,
    ensures
        ({
            let asked = state.stepped(Event::Command(Command::Transmit { request }), first);
            let ready = if state.rx_running {
                asked.state.stepped(Event::Stopped(Ok(())), second)
            } else {
                asked
            };
            &&& state.rx_running ==> asked.state.due() is Stop && asked.said.len() == 0
            &&& ready.state.phase == (Phase::Sending { request })
            &&& ready.state.config == state.config
            &&& ready.state.due() matches Deed::Transmit { params, .. } && params.frequency_hz
                == request.frequency
            &&& ready.said == seq![Said::State { state: DeviceState::Transmitting }]
            &&& ready.answer is None
        }),
{
    let asked = state.stepped(Event::Command(Command::Transmit { request }), first);
    let ready = if state.rx_running {
        asked.state.stepped(Event::Stopped(Ok(())), second)
    } else {
        asked
    };
    assert(ready.said =~= seq![Said::State { state: DeviceState::Transmitting }]);
}

/// A transmission is answered with how it went: with the air time of the
/// request where the radio sent it, and with the radio's own words where it
/// did not, be it that it failed or that the receiver could not be stopped.
pub proof fn transmissions_are_accounted_for(
    state: Control,
    request: wire::Transmit,
    sent: Result<(), String>,
    stopped: Result<(), String>,
    first: Moment,
    second: Moment,
)
    ensures
        state.phase == (Phase::Sending { request }) ==> {
            let quieting = state.stepped(Event::Transmitted(sent), first);
            let done = quieting.state.stepped(Event::Stopped(stopped), second);
            &&& quieting.said.len() == 0
            &&& quieting.state.due() is Stop
            &&& match sent {
                Ok(_) => {
                    &&& done.answer == Some(
                        Answer::Transmitted { outcome: Ok::<i64, String>(request.reported()) },
                    )
                    &&& state.counters.transmissions < u64::MAX
                        ==> done.state.counters.transmissions == state.counters.transmissions + 1
                    &&& done.state.counters.device_faults == state.counters.device_faults
                    &&& done.state.faulted == state.faulted
                },
                Err(error) => {
                    &&& done.answer == Some(
                        Answer::Transmitted { outcome: Err::<i64, String>(error) },
                    )
                    &&& done.state.counters.transmissions == state.counters.transmissions
                    &&& done.state.faulted
                },
            }
        },
        state.phase == (Phase::Preempting { request }) ==> (stopped matches Err(error) ==> {
            let done = state.stepped(Event::Stopped(stopped), first);
            &&& done.answer == Some(Answer::Transmitted { outcome: Err::<i64, String>(error) })
            &&& done.state.faulted
            &&& !done.state.rx_running
            &&& done.state.counters.transmissions == state.counters.transmissions
        }),
{
}

/// Whether an event says that a call failed that a phase was waiting for, and
/// that the radio is given up for: the receiver's stop before a transmission,
/// a transmission, a start, or a read. A radio that fails to stop otherwise,
/// or to identify itself, is none the worse for it.
pub open spec fn fails(phase: Phase, event: Event) -> bool {
    match (phase, event) {
        (Phase::Preempting { .. }, Event::Stopped(outcome)) => outcome is Err,
        (Phase::Quieting { outcome }, Event::Stopped(_)) => outcome is Err,
        (Phase::Restarting, Event::Started(outcome)) => outcome is Err,
        (Phase::Resuming, Event::Started(outcome)) => outcome is Err,
        (Phase::Reviving, Event::Started(outcome)) => outcome is Err,
        (Phase::Receiving, Event::Received(outcome)) => outcome is Err,
        _ => false,
    }
}

/// Every failure is counted once, stops the receiver, and puts the next try
/// off by the wait, which doubles up to a minute; a radio that does not even
/// identify itself is put off again, without being counted; and only a radio
/// on the bus and data put the wait back to two seconds.
pub proof fn failures_are_put_off(state: Control, event: Event, moment: Moment)
    requires
        laws::sound(state),
    ensures
        ({
            let after = state.stepped(event, moment).state;
            let again = state.phase is Probing && event matches Event::Described(Err(_));
            let arrival = state.phase is Polling && event == Event::Command(Command::DeviceArrived);
            let data = state.phase is Receiving && event matches Event::Received(Ok(_));
            &&& fails(state.phase, event) ==> after.faulted && !after.rx_running
            &&& fails(state.phase, event) && state.counters.device_faults < u64::MAX
                ==> after.counters.device_faults == state.counters.device_faults + 1
            &&& !fails(state.phase, event) ==> after.counters.device_faults
                == state.counters.device_faults
            &&& fails(state.phase, event) || again ==> {
                &&& after.retry_at_ms == if moment.now_ms + state.backoff_ms > u64::MAX {
                    u64::MAX as int
                } else {
                    moment.now_ms + state.backoff_ms
                }
                &&& after.backoff_ms == if 2 * state.backoff_ms > 60_000 {
                    60_000
                } else {
                    2 * state.backoff_ms
                }
            }
            &&& arrival ==> after.retry_at_ms == moment.now_ms
            &&& !fails(state.phase, event) && !again && !arrival ==> after.retry_at_ms
                == state.retry_at_ms
            &&& arrival || data ==> after.backoff_ms == 2_000
            &&& !fails(state.phase, event) && !again && !arrival && !data ==> after.backoff_ms
                == state.backoff_ms
        }),
{
}

/// What is counted is what happened: transmissions that went well, and frames
/// that were told.
pub proof fn counters_count(state: Control, event: Event, moment: Moment)
    ensures
        ({
            let after = state.stepped(event, moment).state;
            let sent = event is Stopped && (state.phase matches Phase::Quieting { outcome }
                && outcome is Ok);
            &&& sent && state.counters.transmissions < u64::MAX ==> after.counters.transmissions
                == state.counters.transmissions + 1
            &&& !sent ==> after.counters.transmissions == state.counters.transmissions
            &&& !(state.phase is Receiving && event matches Event::Received(Ok(_)))
                ==> after.counters.rx_frames == state.counters.rx_frames
        }),
{
}

/// A transfer is listened to, and every burst that it completes is told, in
/// order, as a frame: with its timings and its level, on the frequency that the
/// receiver is on, at the time the transfer came; and counted.
pub proof fn frames_are_told(state: Control, samples: Vec<u8>, moment: Moment)
    requires
        state.phase is Receiving,
    ensures
        ({
            let after = state.stepped(Event::Received(Ok(samples)), moment);
            let (listening, heard) = state.listening.steps(envelope::magnitudes(samples@));
            let skipped = after.said.len() - heard.len();
            &&& after.state.listening == listening
            &&& after.state.phase is Polling
            &&& after.answer is None
            &&& skipped == 0 || (skipped == 1 && after.said[0] is State)
            &&& forall|k: int|
                #![trigger heard[k]]
                0 <= k < heard.len() ==> after.said[skipped + k] == (Said::Frame {
                    frequency: state.rx_frequency,
                    timings: heard[k].timings,
                    rssi: heard[k].peak,
                    timestamp_ms: moment.unix_ms,
                })
            &&& state.counters.rx_frames + heard.len() <= u64::MAX ==> after.state.counters.rx_frames
                == state.counters.rx_frames + heard.len()
        }),
{
    let after = state.stepped(Event::Received(Ok(samples)), moment);
    let heard = state.listening.steps(envelope::magnitudes(samples@)).1;
    let told = Control { faulted: false, backoff_ms: engine::FAULT_BACKOFF_MS, ..state }.publishing();
    let frames = engine::frames(heard, state.rx_frequency, moment.unix_ms);
    assert(after.said == told.said + frames);
    assert forall|k: int|
        #![trigger heard[k]]
        0 <= k < heard.len() implies after.said[told.said.len() + k] == frames[k] by {}
}

/// Nothing but a transfer that came is heard.
pub proof fn only_transfers_are_heard(state: Control, event: Event, moment: Moment)
    ensures
        ({
            let after = state.stepped(event, moment);
            !(state.phase is Receiving && event matches Event::Received(Ok(_))) ==> {
                &&& after.said.len() <= 1
                &&& after.said.len() == 1 ==> after.said[0] is State
                &&& after.state.listening == state.listening || after.state.listening
                    == Listening::start(state.config.detector)
            }
        }),
{
}

/// What a state that is told means: the radio is receiving, and has not failed;
/// a request is being sent; it has failed; or it does neither.
pub proof fn told_is_true(state: Control, event: Event, moment: Moment)
    ensures
        ({
            let after = state.stepped(event, moment);
            forall|k: int|
                0 <= k < after.said.len() ==> (#[trigger] after.said[k] matches Said::State {
                    state: told,
                } ==> match told {
                    DeviceState::Receiving => after.state.rx_running && !after.state.faulted,
                    DeviceState::Transmitting => after.state.phase is Sending,
                    DeviceState::Idle => !after.state.rx_running && !after.state.faulted,
                    DeviceState::Faulted => after.state.faulted,
                })
        }),
{
    let after = state.stepped(event, moment);
    match (state.phase, event) {
        (Phase::Receiving, Event::Received(outcome)) => {
            match outcome {
                Ok(samples) => {
                    frames_are_told(state, samples, moment);
                    let heard = state.listening.steps(envelope::magnitudes(samples@)).1;
                    let skipped = after.said.len() - heard.len();
                    assert forall|k: int| 0 <= k < after.said.len() implies (
                    #[trigger] after.said[k] matches Said::State { state: told } ==> match told {
                        DeviceState::Receiving => after.state.rx_running && !after.state.faulted,
                        DeviceState::Transmitting => after.state.phase is Sending,
                        DeviceState::Idle => !after.state.rx_running && !after.state.faulted,
                        DeviceState::Faulted => after.state.faulted,
                    }) by {
                        if k >= skipped {
                            assert(heard[k - skipped] == heard[k - skipped]);
                            assert(after.said[skipped + (k - skipped)] is Frame);
                        }
                    }
                },
                Err(_) => {},
            }
        },
        _ => {},
    }
}

/// The receiver's settings are the clients' business: they change when a client
/// configures it, to what was asked for, and at no other time; the daemon's own
/// settings never change.
pub proof fn settings_are_what_was_asked(state: Control, event: Event, moment: Moment)
    ensures
        ({
            let after = state.stepped(event, moment).state;
            &&& after.config == state.config
            &&& match (state.phase, event) {
                (Phase::Polling, Event::Command(Command::ConfigureRx { frequency, enabled })) => {
                    &&& after.rx_enabled == enabled
                    &&& frequency matches Some(hz) ==> after.rx_frequency == hz
                    &&& frequency is None ==> after.rx_frequency == state.rx_frequency
                },
                _ => after.rx_enabled == state.rx_enabled && after.rx_frequency
                    == state.rx_frequency,
            }
        }),
{
}

/// The receiver is started on its own frequency, read from only while it runs,
/// and started only while it does not.
pub proof fn the_receiver_is_driven_in_order(state: Control)
    requires
        laws::sound(state),
    ensures
        state.due() matches Deed::StartRx { frequency_hz } ==> frequency_hz == state.rx_frequency
            && !state.rx_running && state.rx_enabled,
        state.due() is Read ==> state.rx_running && state.rx_enabled,
        state.due() matches Deed::Poll { wait } ==> wait == !state.rx_enabled,
        state.due() matches Deed::Sleep { ms } ==> ms == 100 && state.faulted,
        state.due() is Transmit <==> state.phase is Sending,
        state.due() is Exit <==> state.phase is Closed,
{
}

/// With no command to see to, the receiver is seen to: read from where it runs,
/// started where it does not and nothing is wrong, left alone where it is
/// switched off, and where the radio failed, left alone until its time has
/// come, and then stopped, identified and started afresh.
pub proof fn the_receiver_is_seen_to(state: Control, moment: Moment)
    requires
        state.phase is Polling,
    ensures
        ({
            let after = state.stepped(Event::NoCommand, moment);
            &&& after.said.len() == 0
            &&& after.answer is None
            &&& !state.rx_enabled ==> after.state.due() == (Deed::Poll { wait: true })
            &&& state.rx_enabled && state.rx_running ==> after.state.due() is Read
            &&& state.rx_enabled && !state.rx_running && !state.faulted ==> after.state.due() == (
            Deed::StartRx { frequency_hz: state.rx_frequency })
            &&& state.rx_enabled && !state.rx_running && state.faulted && moment.now_ms
                < state.retry_at_ms ==> after.state.due() == (Deed::Sleep { ms: 100 })
            &&& state.rx_enabled && !state.rx_running && state.faulted && moment.now_ms
                >= state.retry_at_ms ==> after.state.due() is Stop
        }),
{
}

/// A radio that failed is revived step by step: it is stopped, whatever comes
/// of it, asked who it is, and, where it answers, started on the receiver's
/// frequency; then it is read from, and still counts as failed.
pub proof fn radios_are_revived(
    state: Control,
    stopped: Result<(), String>,
    name: String,
    moment: Moment,
)
    requires
        state.phase is Resetting,
    ensures
        ({
            let probing = state.stepped(Event::Stopped(stopped), moment);
            let reviving = probing.state.stepped(Event::Described(Ok(name)), moment);
            let reading = reviving.state.stepped(Event::Started(Ok(())), moment);
            &&& state.due() is Stop
            &&& probing.state.due() is Describe
            &&& reviving.state.due() == (Deed::StartRx { frequency_hz: state.rx_frequency })
            &&& reviving.state.device == Some(name)
            &&& reading.state.due() is Read
            &&& reading.state.rx_running
            &&& reading.state.faulted == state.faulted
            &&& probing.said.len() == 0
            &&& reviving.said.len() == 0
            &&& reading.said.len() == 0
        }),
{
}

/// The radio's name is what it last gave, and is forgotten only where it gave
/// none at the first.
pub proof fn the_device_is_named(state: Control, event: Event, moment: Moment)
    ensures
        ({
            let after = state.stepped(event, moment).state;
            match (state.phase, event) {
                (Phase::Opening, Event::Described(outcome)) => match outcome {
                    Ok(name) => after.device == Some(name),
                    Err(_) => after.device is None,
                },
                (Phase::Probing, Event::Described(outcome)) => match outcome {
                    Ok(name) => after.device == Some(name),
                    Err(_) => after.device == state.device,
                },
                _ => after.device == state.device,
            }
        }),
{
}

/// An arbiter begins by asking the radio who it is, with the receiver set as
/// configured but not running, nothing counted, nothing told, and the shortest
/// wait.
pub proof fn begins_as_configured(config: engine::Config)
    ensures
        ({
            let state = Control::start(config);
            &&& state.config == config
            &&& state.due() is Describe
            &&& state.rx_enabled == config.rx_enabled
            &&& state.rx_frequency == config.rx_frequency
            &&& !state.rx_running
            &&& !state.faulted
            &&& state.retry_at_ms == 0
            &&& state.backoff_ms == 2_000
            &&& state.device is None
            &&& state.published is None
            &&& state.counters.rx_frames == 0
            &&& state.counters.transmissions == 0
            &&& state.counters.burst_overflows == 0
            &&& state.counters.device_faults == 0
            &&& state.listening == Listening::start(config.detector)
        }),
{
}

/// Switching the receiver off is done at once, or when it has stopped, and then
/// answered: nothing runs, nothing counts as failed any more, and the clients
/// know that the radio is idle.
pub proof fn switching_off_is_done(
    state: Control,
    frequency: Option<u64>,
    stopped: Result<(), String>,
    moment: Moment,
)
    requires
        laws::sound(state),
        state.phase is Polling,
    ensures
        ({
            let command = Command::ConfigureRx { frequency, enabled: false };
            let asked = state.stepped(Event::Command(command), moment);
            let done = if state.rx_running {
                asked.state.stepped(Event::Stopped(stopped), moment)
            } else {
                asked
            };
            &&& state.rx_running ==> asked.state.due() is Stop && asked.answer is None
            &&& done.answer == Some(Answer::Configured { outcome: Ok::<(), String>(()) })
            &&& !done.state.rx_running
            &&& !done.state.rx_enabled
            &&& !done.state.faulted
            &&& done.state.published == Some(DeviceState::Idle)
            &&& done.state.due() == (Deed::Poll { wait: true })
            &&& done.state.listening == Listening::start(state.config.detector)
        }),
{
}

/// A receiver that was configured anew, and started, is running; one that did
/// not start has failed, and the answer says so in the radio's own words.
pub proof fn restarts_are_reported(state: Control, outcome: Result<(), String>, moment: Moment)
    requires
        state.phase is Restarting,
    ensures
        ({
            let done = state.stepped(Event::Started(outcome), moment);
            &&& done.answer == Some(Answer::Configured { outcome })
            &&& done.state.rx_running == outcome is Ok
            &&& outcome is Ok ==> done.state.faulted == state.faulted
            &&& outcome is Err ==> done.state.faulted && done.state.published == Some(
                DeviceState::Faulted,
            )
        }),
{
}

/// Nobody left to ask for anything: the radio is stopped, and the thread ends.
pub proof fn the_end_is_orderly(state: Control, stopped: Result<(), String>, moment: Moment)
    requires
        state.phase is Polling,
    ensures
        ({
            let closing = state.stepped(Event::Closed, moment);
            let closed = closing.state.stepped(Event::Stopped(stopped), moment);
            &&& closing.state.due() is Stop
            &&& closed.state.due() is Exit
            &&& closing.said.len() == 0
            &&& closed.said.len() == 0
        }),
{
}

/// Whether an event is one that the action due can lead to.
pub open spec fn awaited(state: Control, event: Event) -> bool {
    match state.due() {
        Deed::Describe => event is Described,
        Deed::Poll { .. } => event is Command || event is NoCommand || event is Closed,
        Deed::StartRx { .. } => event is Started,
        Deed::Read => event is Received,
        Deed::Stop => event is Stopped,
        Deed::Transmit { .. } => event is Transmitted,
        Deed::Sleep { .. } => event is Slept,
        Deed::Exit => false,
    }
}

/// What was not waited for leads to nothing.
pub proof fn strays_are_ignored(state: Control, event: Event, moment: Moment)
    requires
        !awaited(state, event),
    ensures
        state.stepped(event, moment).state == state,
        state.stepped(event, moment).said.len() == 0,
        state.stepped(event, moment).answer is None,
{
}

/// What is done is what is due.
pub proof fn actions_are_deeds(action: Action, deed: Deed)
    requires
        engine::does(action, deed),
    ensures
        action is Describe <==> deed is Describe,
        action is Read <==> deed is Read,
        action is Stop <==> deed is Stop,
        action is Exit <==> deed is Exit,
        action is Poll <==> deed is Poll,
        action is StartRx <==> deed is StartRx,
        action is Transmit <==> deed is Transmit,
        action is Sleep <==> deed is Sleep,
        action matches Action::Poll { wait } ==> deed == (Deed::Poll { wait }),
        action matches Action::StartRx { frequency_hz } ==> deed == (Deed::StartRx {
            frequency_hz,
        }),
        action matches Action::Sleep { ms } ==> deed == (Deed::Sleep { ms }),
        action matches Action::Transmit { params, samples } ==> deed == (Deed::Transmit {
            params,
            samples: samples@,
        }),
{
}

/// A reply is the answer that is due, word for word, and there is none where
/// none is due.
pub proof fn replies_are_answers(reply: Option<Reply>, answer: Option<Answer>)
    requires
        engine::answers(reply, answer),
    ensures
        reply is Some <==> answer is Some,
        answer matches Some(Answer::Transmitted { outcome }) ==> reply == Some(
            Reply::Transmitted(outcome),
        ),
        answer matches Some(Answer::Configured { outcome }) ==> reply == Some(
            Reply::Configured(outcome),
        ),
        answer matches Some(Answer::Status { state }) ==> (reply matches Some(Reply::Status(status))
            && engine::tells(*status, state)),
{
}

/// A status tells the truth, field by field.
pub proof fn a_status_is_true(status: Status, state: Control)
    requires
        engine::tells(status, state),
    ensures
        status.protocol_version == 1,
        status.daemon_version@ == "0.1.2"@,
        status.state is Faulted <==> state.faulted,
        status.state is Receiving <==> state.rx_running && !state.faulted,
        status.state is Idle <==> !state.rx_running && !state.faulted,
        status.device == state.device,
        status.rx.enabled == state.rx_enabled,
        status.rx.frequency == state.rx_frequency,
        status.rx.sample_rate == state.config.sample_rate,
        status.rx.threshold == state.listening.threshold,
        status.counters.rx_frames == state.counters.rx_frames,
        status.counters.transmissions == state.counters.transmissions,
        status.counters.burst_overflows == state.listening.gathering.overflows,
        status.counters.device_faults == state.counters.device_faults,
{
}

/// A message says a state or a frame where it is an event of this version that
/// holds just that.
pub proof fn messages_say_what_they_hold(message: Message)
    ensures
        engine::said_in(message) matches Said::State { state } ==> message.v == 1
            && message.id is None && message.payload == (MessagePayload::DeviceState { state }),
        engine::said_in(message) matches Said::Frame { frequency, timings, rssi, timestamp_ms }
            ==> message.v == 1 && message.id is None && (
        message.payload matches MessagePayload::RxFrame(frame) && frame.frequency == frequency
            && frame.timings@ == timings && frame.rssi == rssi && frame.timestamp_ms
            == timestamp_ms),
{
}

/// Messages say what each of them says, in order.
pub proof fn messages_speak_in_order(messages: Seq<Message>)
    ensures
        engine::spoken(messages).len() == messages.len(),
        forall|k: int|
            0 <= k < messages.len() ==> engine::spoken(messages)[k] == engine::said_in(
                #[trigger] messages[k],
            ),
{
}

/// The receiver runs from a start that went well to the stop that is made for a
/// transmission or a retune, or to a failure, whichever comes first; nothing
/// else starts or stops it.
pub proof fn the_receiver_runs_from_start_to_stop(state: Control, event: Event, moment: Moment)
    requires
        laws::sound(state),
    ensures
        ({
            let after = state.stepped(event, moment).state;
            let starting = state.phase is Restarting || state.phase is Resuming
                || state.phase is Reviving;
            let stopping = state.phase is Preempting || state.phase is Retuning;
            &&& starting ==> (event matches Event::Started(outcome) ==> after.rx_running
                == outcome is Ok)
            &&& stopping && event is Stopped ==> !after.rx_running
            &&& fails(state.phase, event) ==> !after.rx_running
            &&& !(starting && event is Started) && !(stopping && event is Stopped) && !fails(
                state.phase,
                event,
            ) ==> after.rx_running == state.rx_running
        }),
{
}

/// A radio counts as failed from a failure on, until data arrives or the
/// receiver is switched off.
pub proof fn faults_last_until_data(state: Control, event: Event, moment: Moment)
    requires
        laws::sound(state),
    ensures
        ({
            let after = state.stepped(event, moment);
            let data = state.phase is Receiving && event matches Event::Received(Ok(_));
            let off = !after.state.rx_enabled && (after.answer matches Some(
                Answer::Configured { outcome },
            ) && outcome is Ok);
            &&& fails(state.phase, event) ==> after.state.faulted
            &&& data ==> !after.state.faulted
            &&& off ==> !after.state.faulted
            &&& !fails(state.phase, event) && !data && !off ==> after.state.faulted == state.faulted
        }),
{
}

/// What the receiver needs next, as things stand.
pub open spec fn needed(state: Control, now_ms: u64) -> Deed {
    if !state.rx_enabled {
        Deed::Poll { wait: true }
    } else if state.rx_running {
        Deed::Read
    } else if !state.faulted {
        Deed::StartRx { frequency_hz: state.rx_frequency }
    } else if now_ms < state.retry_at_ms {
        Deed::Sleep { ms: 100 }
    } else {
        Deed::Stop
    }
}

/// Commands do not hold the receiver up: once one has been answered, or a radio
/// has appeared, or there was none to see to, what the receiver needs is done
/// next.
pub proof fn the_receiver_is_not_held_up(state: Control, event: Event, moment: Moment)
    ensures
        ({
            let after = state.stepped(event, moment);
            after.answer is Some || (state.phase is Polling && (event is NoCommand || event
                == Event::Command(Command::DeviceArrived))) ==> after.state.due() == needed(
                after.state,
                moment.now_ms,
            )
        }),
{
}

/// Commands are looked for after everything that the receiver was given: after
/// it was identified, after every transfer, after every pause, and after every
/// start or try that failed.
pub proof fn commands_are_looked_for(state: Control, event: Event, moment: Moment)
    ensures
        ({
            let after = state.stepped(event, moment).state;
            let looks = after.due() == (Deed::Poll { wait: !after.rx_enabled });
            &&& state.phase is Opening && event is Described ==> looks
            &&& state.phase is Receiving && event is Received ==> looks
            &&& state.phase is Parked && event is Slept ==> looks
            &&& (state.phase is Resuming || state.phase is Reviving) && (event matches Event::Started(
                outcome,
            ) && outcome is Err) ==> looks
            &&& state.phase is Probing && (event matches Event::Described(outcome)
                && outcome is Err) ==> looks
            &&& state.phase is Resuming && (event matches Event::Started(outcome) && outcome is Ok)
                ==> after.due() is Read
        }),
{
}

} // verus!
