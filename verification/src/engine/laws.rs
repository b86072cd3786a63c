//! What the arbiter promises, step by step.

use vstd::arithmetic::power2::*;
use vstd::prelude::*;

use crate::engine;
use crate::engine::{Answer, Command, Control, Deed, Event, Moment, Phase, Said};
use crate::ook::detector::Listening;
use crate::radio;
use crate::wire;
use crate::wire::DeviceState;

verus! {

/// Whether the last state said is "transmitting".
pub open spec fn on_air(state: Control) -> bool {
    state.published == Some(DeviceState::Transmitting)
}

/// What holds of an arbiter between any two events: who has the radio, and
/// what the clients were told of it.
pub open spec fn sound(state: Control) -> bool {
    &&& engine::FAULT_BACKOFF_MS <= state.backoff_ms <= engine::MAX_BACKOFF_MS
    &&& match state.phase {
        Phase::Opening => !state.rx_running && !on_air(state),
        Phase::Polling => (state.rx_running ==> state.rx_enabled) && !on_air(state),
        Phase::Preempting { .. } => state.rx_running && state.rx_enabled && !on_air(state),
        Phase::Sending { .. } => !state.rx_running && on_air(state),
        Phase::Quieting { .. } => !state.rx_running && on_air(state),
        Phase::Retuning => state.rx_running && !on_air(state),
        Phase::Restarting => !state.rx_running && state.rx_enabled && !on_air(state),
        Phase::Resuming => !state.rx_running && state.rx_enabled && !state.faulted,
        Phase::Receiving => state.rx_running && state.rx_enabled && !on_air(state),
        Phase::Resetting => !state.rx_running && state.rx_enabled && state.faulted && !on_air(
            state,
        ),
        Phase::Probing => !state.rx_running && state.rx_enabled && state.faulted && !on_air(state),
        Phase::Reviving => !state.rx_running && state.rx_enabled && state.faulted && !on_air(state),
        Phase::Parked => !state.rx_running && state.rx_enabled && state.faulted && !on_air(state),
        Phase::Closing => !on_air(state),
        Phase::Closed => !on_air(state),
    }
}

/// An arbiter begins sound.
pub proof fn starts_sound(config: engine::Config)
    ensures
        sound(Control::start(config)),
{
}

/// Whatever happens, an arbiter stays sound.
pub proof fn stays_sound(state: Control, event: Event, moment: Moment)
    requires
        sound(state),
    ensures
        sound(state.stepped(event, moment).state),
{
}

/// The receiver is stopped before anything is transmitted.
pub proof fn half_duplex(state: Control)
    requires
        sound(state),
        state.due() is Transmit,
    ensures
        !state.rx_running,
        state.published == Some(DeviceState::Transmitting),
{
}

/// A transmission preempts the receiver: the receiver is stopped, and then the
/// request is sent, padded, with its own gain or else the daemon's.
pub proof fn transmissions_preempt(
    state: Control,
    request: wire::Transmit,
    first: Moment,
    second: Moment,
)
    requires
        sound(state),
        state.phase is Polling,
        state.rx_running,
    ensures
        ({
            let asked = state.stepped(Event::Command(Command::Transmit { request }), first);
            let stopped = asked.state.stepped(Event::Stopped(Ok(())), second);
            &&& asked.state.due() is Stop
            &&& asked.said.len() == 0
            &&& stopped.said == seq![Said::State { state: DeviceState::Transmitting }]
            &&& stopped.state.due() == (Deed::Transmit {
                params: state.params(request),
                samples: radio::aligned(state.samples(request)),
            })
        }),
{
    let asked = state.stepped(Event::Command(Command::Transmit { request }), first);
    let stopped = asked.state.stepped(Event::Stopped(Ok(())), second);
    assert(stopped.said =~= seq![Said::State { state: DeviceState::Transmitting }]);
}

/// A command waits for one transfer at the most: after every transfer, whatever
/// came of it, the inbox is looked into.
pub proof fn preemption_takes_one_transfer(
    state: Control,
    outcome: Result<Vec<u8>, String>,
    moment: Moment,
)
    requires
        state.phase is Receiving,
    ensures
        state.stepped(Event::Received(outcome), moment).state.due() == (Deed::Poll {
            wait: !state.rx_enabled,
        }),
{
}

/// The transmitter is never left running: whatever came of a transmission, the
/// radio is stopped next.
pub proof fn transmissions_are_stopped(
    state: Control,
    outcome: Result<(), String>,
    moment: Moment,
)
    requires
        state.phase is Sending,
    ensures
        state.stepped(Event::Transmitted(outcome), moment).state.due() is Stop,
        state.stepped(Event::Transmitted(outcome), moment).answer is None,
{
}

/// A transmission is answered for only once it is over and the transmitter
/// stopped, so a client knows that it actually happened.
pub proof fn answers_wait_for_the_stop(state: Control, event: Event, moment: Moment)
    requires
        state.stepped(event, moment).answer matches Some(Answer::Transmitted { outcome })
            && outcome is Ok,
    ensures
        state.phase is Quieting,
        event is Stopped,
{
}

/// A transmission's own state overtakes its reply: by the time it is answered
/// for, the clients were told that the radio was transmitting.
pub proof fn busy_is_told_before_the_answer(state: Control, event: Event, moment: Moment)
    requires
        sound(state),
        state.stepped(event, moment).answer matches Some(Answer::Transmitted { outcome })
            && outcome is Ok,
    ensures
        state.published == Some(DeviceState::Transmitting),
{
}

/// Whether a command is in progress.
pub open spec fn busy(phase: Phase) -> bool {
    phase is Preempting || phase is Sending || phase is Quieting || phase is Retuning
        || phase is Restarting
}

/// Every request is answered once: at once or when what it began is done, and
/// nothing is answered that was not asked.
pub proof fn every_command_is_answered_once(state: Control, event: Event, moment: Moment)
    ensures
        ({
            let after = state.stepped(event, moment);
            let taken = state.phase is Polling && event is Command;
            let arrival = event == Event::Command(Command::DeviceArrived);
            if busy(state.phase) || (taken && !arrival) {
                after.answer is Some <==> !busy(after.state.phase)
            } else {
                after.answer is None && !busy(after.state.phase)
            }
        }),
{
}

/// A transmission that went well hands the radio back: the receiver, where it
/// is wanted, is started next, on its own frequency, and nothing is said of
/// the moment in between.
pub proof fn receiver_comes_back(
    state: Control,
    duration_us: i64,
    stopped: Result<(), String>,
    moment: Moment,
)
    requires
        sound(state),
        state.phase == (Phase::Quieting { outcome: Ok::<i64, String>(duration_us) }),
        state.rx_enabled,
        !state.faulted,
    ensures
        ({
            let after = state.stepped(Event::Stopped(stopped), moment);
            let started = after.state.stepped(Event::Started(Ok(())), moment);
            &&& after.said.len() == 0
            &&& after.answer == Some(
                Answer::Transmitted { outcome: Ok::<i64, String>(duration_us) },
            )
            &&& after.state.due() == (Deed::StartRx { frequency_hz: state.rx_frequency })
            &&& started.said == seq![Said::State { state: DeviceState::Receiving }]
            &&& started.state.due() is Read
        }),
{
    let after = state.stepped(Event::Stopped(stopped), moment);
    let started = after.state.stepped(Event::Started(Ok(())), moment);
    assert(started.said =~= seq![Said::State { state: DeviceState::Receiving }]);
}

/// Whether the clients know what the radio is doing: that it is transmitting
/// as long as it is, nothing before the radio is open, and otherwise the state
/// that it is in, or nothing as long as it has been idle ever since. Nothing
/// is said of the moment in which the receiver is about to be started again,
/// nor of a radio that is being closed.
pub open spec fn informed(state: Control) -> bool {
    match state.phase {
        Phase::Sending { .. } | Phase::Quieting { .. } => state.published == Some(
            DeviceState::Transmitting,
        ),
        Phase::Opening => state.published is None && state.device_state() == DeviceState::Idle,
        Phase::Restarting | Phase::Resuming | Phase::Closing | Phase::Closed => true,
        _ => state.published == Some(state.device_state()) || (state.published is None
            && state.device_state() == DeviceState::Idle),
    }
}

/// An arbiter begins with clients that know what the radio is doing.
pub proof fn starts_informed(config: engine::Config)
    ensures
        informed(Control::start(config)),
{
}

/// Whatever happens, the clients know what the radio is doing.
pub proof fn stays_informed(state: Control, event: Event, moment: Moment)
    requires
        sound(state),
        informed(state),
    ensures
        informed(state.stepped(event, moment).state),
{
}

/// No state is told twice in a row: each one said differs from the one said
/// before it, and is what the clients know from then on; and what they know
/// changes only by being said.
pub proof fn states_are_not_repeated(state: Control, event: Event, moment: Moment)
    requires
        sound(state),
    ensures
        ({
            let after = state.stepped(event, moment);
            &&& forall|k: int|
                0 <= k < after.said.len() ==> (#[trigger] after.said[k] matches Said::State {
                    state: told,
                } ==> k == 0 && state.published != Some(told) && after.state.published == Some(
                    told,
                ))
            &&& state.published != after.state.published ==> after.said.len() > 0
                && after.said[0] == (Said::State { state: after.state.published->0 })
        }),
{
    let after = state.stepped(event, moment);
    match (state.phase, event) {
        (Phase::Receiving, Event::Received(outcome)) => {
            match outcome {
                Ok(samples) => {
                    let told = Control {
                        faulted: false,
                        backoff_ms: engine::FAULT_BACKOFF_MS,
                        ..state
                    }.publishing();
                    let heard = state.listening.steps(
                        crate::ook::envelope::magnitudes(samples@),
                    ).1;
                    let frames = engine::frames(heard, state.rx_frequency, moment.unix_ms);
                    assert(after.said == told.said + frames);
                    assert forall|k: int| 0 <= k < after.said.len() implies (
                    #[trigger] after.said[k] matches Said::State { state: s } ==> k == 0
                        && state.published != Some(s) && after.state.published == Some(s)) by {
                        if k >= told.said.len() {
                            assert(after.said[k] == frames[k - told.said.len()]);
                        }
                    }
                },
                Err(_) => {},
            }
        },
        _ => {},
    }
}

/// "Idle" is said only of a receiver that is switched off: a client tracking
/// availability does not see it blink once per transmission.
pub proof fn idle_means_off(state: Control, event: Event, moment: Moment)
    requires
        sound(state),
    ensures
        forall|k: int|
            0 <= k < state.stepped(event, moment).said.len() ==> (#[trigger] state.stepped(
                event,
                moment,
            ).said[k] == (Said::State { state: DeviceState::Idle }) ==> !state.stepped(
                event,
                moment,
            ).state.rx_enabled),
{
    states_are_not_repeated(state, event, moment);
}

/// Recovery is only believed once a transfer has arrived. A radio that merely
/// identifies itself, or starts, stays faulted; the one other way out is to
/// switch the receiver off.
pub proof fn recovery_takes_data(state: Control, event: Event, moment: Moment)
    requires
        state.faulted,
        !state.stepped(event, moment).state.faulted,
    ensures
        (state.phase is Receiving && event matches Event::Received(Ok(_))) || (
        !state.stepped(event, moment).state.rx_enabled && state.stepped(event, moment).answer == (
        Some(Answer::Configured { outcome: Ok::<(), String>(()) }))),
{
}

/// The first transfer after a fault clears it, and the wait starts over.
pub proof fn data_recovers(state: Control, samples: Vec<u8>, moment: Moment)
    requires
        sound(state),
        state.phase is Receiving,
    ensures
        ({
            let after = state.stepped(Event::Received(Ok(samples)), moment).state;
            &&& !after.faulted
            &&& after.backoff_ms == engine::FAULT_BACKOFF_MS
            &&& after.published == Some(DeviceState::Receiving)
        }),
{
}

/// A failure is not fatal: it is told, counted, and followed by another try
/// after a wait.
pub proof fn failures_are_survived(state: Control, error: String, moment: Moment)
    requires
        sound(state),
        state.phase is Receiving,
    ensures
        ({
            let after = state.stepped(Event::Received(Err(error)), moment).state;
            &&& after.faulted
            &&& after.published == Some(DeviceState::Faulted)
            &&& after.counters.device_faults == engine::counted(state.counters.device_faults)
            &&& after.retry_at_ms == engine::later(moment.now_ms, state.backoff_ms)
            &&& after.backoff_ms == engine::doubled(state.backoff_ms)
            &&& after.phase is Polling
        }),
{
}

/// The wait after so many failures in a row.
pub open spec fn wait_after(failures: nat) -> u64
    decreases failures,
{
    if failures == 0 {
        engine::FAULT_BACKOFF_MS
    } else {
        engine::doubled(wait_after((failures - 1) as nat))
    }
}

/// The wait doubles with every failure, from two seconds up to a minute.
pub proof fn waits_double(failures: nat)
    ensures
        wait_after(failures) == if 2_000 * pow2(failures) > 60_000 {
            60_000
        } else {
            2_000 * pow2(failures)
        },
    decreases failures,
{
    lemma2_to64();
    if failures > 0 {
        waits_double((failures - 1) as nat);
        lemma_pow2_unfold(failures);
    }
}

/// A radio that failed is left alone until its time has come, while commands
/// are still looked for.
pub proof fn waits_are_kept(state: Control, moment: Moment)
    requires
        sound(state),
        state.phase is Polling,
        state.rx_enabled,
        state.faulted,
        !state.rx_running,
    ensures
        ({
            let after = state.stepped(Event::NoCommand, moment).state;
            &&& moment.now_ms < state.retry_at_ms ==> after.due() == (Deed::Sleep {
                ms: engine::FAULT_POLL_MS,
            }) && after.stepped(Event::Slept, moment).state.due() == (Deed::Poll { wait: false })
            &&& moment.now_ms >= state.retry_at_ms ==> after.due() is Stop
        }),
{
}

/// An arrival on the bus resets the retry timer, and declares nothing healthy.
pub proof fn arrivals_reset_the_timer(state: Control, moment: Moment)
    requires
        sound(state),
        state.phase is Polling,
    ensures
        ({
            let after = state.stepped(Event::Command(Command::DeviceArrived), moment);
            &&& after.state.faulted == state.faulted
            &&& after.said.len() == 0
            &&& after.state.backoff_ms == engine::FAULT_BACKOFF_MS
            &&& state.faulted && state.rx_enabled && !state.rx_running ==> after.state.due() is Stop
        }),
{
}

/// A receiver that is switched off is left alone: nothing is done until a
/// command arrives.
pub proof fn off_is_off(state: Control, moment: Moment)
    requires
        sound(state),
        state.phase is Polling,
        !state.rx_enabled,
    ensures
        state.due() == (Deed::Poll { wait: true }),
        state.stepped(Event::NoCommand, moment).state == state,
{
}

/// Enabling the receiver is answered with how its start went, after it was
/// tried on the frequency asked for, with a detector that knows nothing of the
/// old band.
pub proof fn enabling_reports_the_start(
    state: Control,
    frequency: Option<u64>,
    stopped: Result<(), String>,
    outcome: Result<(), String>,
    moment: Moment,
)
    requires
        sound(state),
        state.phase is Polling,
    ensures
        ({
            let command = Command::ConfigureRx { frequency, enabled: true };
            let asked = state.stepped(Event::Command(command), moment);
            let ready = if state.rx_running {
                asked.state.stepped(Event::Stopped(stopped), moment)
            } else {
                asked
            };
            let done = ready.state.stepped(Event::Started(outcome), moment);
            &&& state.rx_running ==> asked.state.due() is Stop
            &&& ready.state.due() == (Deed::StartRx {
                frequency_hz: match frequency {
                    Some(frequency) => frequency,
                    None => state.rx_frequency,
                },
            })
            &&& ready.state.listening == Listening::start(state.config.detector)
            &&& done.answer == Some(Answer::Configured { outcome })
            &&& outcome is Ok && !state.faulted ==> done.state.device_state()
                == DeviceState::Receiving
            &&& outcome is Err ==> done.state.device_state() == DeviceState::Faulted
        }),
{
}

/// Asking for the status changes nothing of what it tells.
pub proof fn asking_changes_nothing(state: Control, moment: Moment)
    requires
        state.phase is Polling,
    ensures
        ({
            let after = state.stepped(Event::Command(Command::Status), moment);
            &&& after.answer == Some(Answer::Status { state })
            &&& after.said.len() == 0
            &&& after.state == (Control { phase: after.state.phase, ..state })
        }),
{
}

} // verus!
