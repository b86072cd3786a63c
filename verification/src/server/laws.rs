//! What becomes of every request.

use vstd::prelude::*;

use crate::engine::{Command, Reply};
use crate::server;
use crate::server::{Awaiting, Exchange, Incoming, Lost, Step};
use crate::text;
use crate::wire;
use crate::wire::{ConfigureRx, MessagePayload, Request, RequestPayload};

verus! {

/// Whether a step says an error to a client, in these words, with its id.
pub open spec fn refuses(step: Step, id: Option<String>, words: Seq<char>) -> bool {
    step matches Step::Say { message } && message.v == 1 && message.id == id && (
    message.payload matches MessagePayload::Error { message: said } && said@ == words)
}

/// A request of another version is refused by name, whatever it asks for, and
/// nothing is asked of the radio.
pub proof fn other_versions_are_refused(request: Request, step: Step)
    requires
        server::begins(request, step),
        request.v != 1,
    ensures
        refuses(
            step,
            request.id,
            "protocol version "@ + text::decimal(request.v as nat)
                + " is not supported; this daemon speaks version "@ + text::decimal(1),
        ),
{
}

/// A transmission that is in order is asked of the radio as it is, and its
/// reply waited for; one that is not is refused with the reason.
pub proof fn transmissions_are_forwarded(request: Request, transmit: wire::Transmit, step: Step)
    requires
        server::begins(request, step),
        request.v == 1,
        request.payload == RequestPayload::Transmit(transmit),
    ensures
        match transmit.refusal() {
            None => step == (Step::Ask {
                command: Command::Transmit { request: transmit },
                exchange: Exchange { id: request.id, awaiting: Awaiting::Transmission },
            }),
            Some(invalid) => refuses(step, request.id, invalid.described()),
        },
{
}

/// A receiver's settings are asked of the radio as they are, unless the
/// frequency is out of range; and a request for the status is just that.
pub proof fn settings_are_forwarded(request: Request, configure: ConfigureRx, step: Step)
    requires
        server::begins(request, step),
        request.v == 1,
    ensures
        request.payload == RequestPayload::ConfigureRx(configure) ==> {
            let tunable = match configure.frequency {
                Some(hz) => 1_000_000 <= hz <= 6_000_000_000,
                None => true,
            };
            &&& tunable ==> step == (Step::Ask {
                command: Command::ConfigureRx {
                    frequency: configure.frequency,
                    enabled: configure.enabled,
                },
                exchange: Exchange { id: request.id, awaiting: Awaiting::Configuration },
            })
            &&& !tunable ==> refuses(
                step,
                request.id,
                text::decimal(configure.frequency->0 as nat)
                    + " Hz is outside the radio's 1 MHz–6 GHz range"@,
            )
        },
        request.payload is Status ==> step == (Step::Ask {
            command: Command::Status,
            exchange: Exchange { id: request.id, awaiting: Awaiting::Status },
        }),
{
}

/// A text that is no request is refused at once, with what is wrong with it.
pub proof fn nonsense_is_refused(id: Option<String>, reason: Seq<char>, step: Step)
    requires
        (Incoming::Unparsed { id, reason }).calls_for(step),
    ensures
        refuses(step, id, "could not parse request: "@ + reason),
{
}

/// A transmission that was sent is answered with its air time, and one that was
/// not with the radio's own words.
pub proof fn transmissions_are_answered(
    id: Option<String>,
    outcome: Result<i64, String>,
    step: Step,
)
    requires
        server::resumes(
            Exchange { id, awaiting: Awaiting::Transmission },
            Ok(Reply::Transmitted(outcome)),
            step,
        ),
    ensures
        match outcome {
            Ok(us) => step matches Step::Say { message } && message.v == 1 && message.id == id
                && message.payload == (MessagePayload::Transmitted { duration_us: us }),
            Err(words) => refuses(step, id, words@),
        },
{
}

/// A receiver that was configured is answered with the status that it is then
/// in, and one that was not with the radio's own words.
pub proof fn settings_are_answered_with_the_status(
    id: Option<String>,
    outcome: Result<(), String>,
    status: Box<wire::Status>,
    step: Step,
    last: Step,
)
    requires
        server::resumes(
            Exchange { id, awaiting: Awaiting::Configuration },
            Ok(Reply::Configured(outcome)),
            step,
        ),
        server::resumes(
            Exchange { id, awaiting: Awaiting::Status },
            Ok(Reply::Status(status)),
            last,
        ),
    ensures
        match outcome {
            Ok(_) => step == (Step::Ask {
                command: Command::Status,
                exchange: Exchange { id, awaiting: Awaiting::Status },
            }),
            Err(words) => refuses(step, id, words@),
        },
        last matches Step::Say { message } && message.v == 1 && message.id == id && message.payload
            == MessagePayload::Status(status),
{
}

/// A radio that does not answer is not waited for: the client is told that it
/// is gone, or that it dropped the request; and so it is told where the answer
/// is to something else.
pub proof fn silence_is_told(exchange: Exchange, outcome: Result<Reply, Lost>, step: Step)
    requires
        server::resumes(exchange, outcome, step),
    ensures
        outcome == Err::<Reply, Lost>(Lost::Gone) ==> refuses(
            step,
            exchange.id,
            "the radio thread is gone"@,
        ),
        outcome == Err::<Reply, Lost>(Lost::Dropped) ==> refuses(
            step,
            exchange.id,
            "the radio thread dropped the request"@,
        ),
        (outcome matches Ok(reply) && match exchange.awaiting {
            Awaiting::Transmission => !(reply is Transmitted),
            Awaiting::Configuration => !(reply is Configured),
            Awaiting::Status => !(reply is Status),
        }) ==> refuses(step, exchange.id, "the radio thread dropped the request"@),
{
}

} // verus!
