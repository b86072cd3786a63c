//! What clients hear after a transmission.

use vstd::prelude::*;

use crate::engine::{Control, Event, Moment, Phase, Said};
use crate::wire::DeviceState;

verus! {

/// After a transmission that went out, nothing is said where the receiver is
/// wanted and the radio is in order; else the radio's state is, unless it was
/// the last one said.
pub proof fn transmissions_end_quietly(
    state: Control,
    duration_us: i64,
    stopped: Result<(), String>,
    moment: Moment,
)
    requires
        state.phase == (Phase::Quieting { outcome: Ok::<i64, String>(duration_us) }),
        !state.rx_running,
    ensures
        ({
            let said = state.stepped(Event::Stopped(stopped), moment).said;
            let now = if state.faulted {
                DeviceState::Faulted
            } else {
                DeviceState::Idle
            };
            if state.rx_enabled && !state.faulted {
                said.len() == 0
            } else if state.published == Some(now) {
                said.len() == 0
            } else {
                said == seq![Said::State { state: now }]
            }
        }),
{
}

} // verus!
