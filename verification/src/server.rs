//! The WebSocket front end: many clients, one radio.
//!
//! Each connection is its own task with its own request loop, so a client
//! awaiting a transmission never holds up another's status query. Everything
//! they ask for funnels into the arbiter's single command channel, which is
//! where serialisation actually belongs.
//!
//! Here stands what is made of a request: whether it is refused, what is
//! asked of the arbiter, and what is answered. Nothing here knows what the
//! timings mean. The daemon is a radio proxy.

pub mod laws;

use vstd::prelude::*;

use crate::engine;
use crate::engine::{Command, Control, Event, Reply};
use crate::text;
use crate::wire;
use crate::wire::{Message, MessagePayload, Request, RequestPayload};

verus! {

/// Queued outbound messages per connection. A client that stops reading gets
/// disconnected rather than being allowed to back up into the radio thread.
pub const CLIENT_QUEUE: usize = 256;

/// What a reply from the arbiter is waited for.
#[derive(Debug, Clone, Copy, PartialEq, Eq, Structural)]
pub enum Awaiting {
    Transmission,
    Configuration,
    Status,
}

/// A request in progress.
#[derive(Debug, Clone)]
pub struct Exchange {
    /// The request's id, to be echoed.
    pub id: Option<String>,
    pub awaiting: Awaiting,
}

/// What to do about a request.
#[derive(Debug)]
pub enum Step {
    /// Send this to the client; the request is done.
    Say { message: Message },
    /// Ask the arbiter, and go on with the exchange once it has answered.
    Ask { command: Command, exchange: Exchange },
}

/// Why the arbiter did not answer.
#[derive(Debug, Clone, Copy, PartialEq, Eq, Structural)]
pub enum Lost {
    /// The command could not be handed over.
    Gone,
    /// The command was taken, and no reply came.
    Dropped,
}

/// Whether a message is the error reply to a request.
pub open spec fn is_error(message: Message, id: Option<String>, words: Seq<char>) -> bool {
    &&& message.v == wire::PROTOCOL_VERSION
    &&& message.id == id
    &&& message.payload matches MessagePayload::Error { message: said } && said@ == words
}

/// Why a protocol version is refused.
pub open spec fn unsupported(v: u32) -> Seq<char> {
    "protocol version "@ + text::decimal(v as nat)
        + " is not supported; this daemon speaks version "@ + text::decimal(
        wire::PROTOCOL_VERSION as nat,
    )
}

/// Why the arbiter did not answer, in words.
pub open spec fn lost(reason: Lost) -> Seq<char> {
    match reason {
        Lost::Gone => "the radio thread is gone"@,
        Lost::Dropped => "the radio thread dropped the request"@,
    }
}

/// Whether a step asks the arbiter for this.
pub open spec fn asks(step: Step, command: Command, id: Option<String>, awaiting: Awaiting) -> bool {
    step == (Step::Ask { command, exchange: Exchange { id, awaiting } })
}

/// Whether a step sends this error.
pub open spec fn says_error(step: Step, id: Option<String>, words: Seq<char>) -> bool {
    step matches Step::Say { message } && is_error(message, id, words)
}

/// Whether a step sends this reply.
pub open spec fn says(step: Step, id: Option<String>, payload: MessagePayload) -> bool {
    step == (Step::Say { message: Message { v: wire::PROTOCOL_VERSION, id, payload } })
}

/// Whether a step is what a request calls for: a refusal by name of any other
/// version, a refusal of what the wire layer can judge, and otherwise a
/// command.
pub open spec fn begins(request: Request, step: Step) -> bool {
    if request.v != wire::PROTOCOL_VERSION {
        says_error(step, request.id, unsupported(request.v))
    } else {
        match request.payload {
            RequestPayload::Transmit(transmit) => match transmit.refusal() {
                Some(invalid) => says_error(step, request.id, invalid.described()),
                None => asks(
                    step,
                    Command::Transmit { request: transmit },
                    request.id,
                    Awaiting::Transmission,
                ),
            },
            RequestPayload::ConfigureRx(configure) => {
                if configure.frequency is Some && !wire::tunable(configure.frequency->0) {
                    says_error(step, request.id, wire::out_of_range(configure.frequency->0))
                } else {
                    asks(
                        step,
                        Command::ConfigureRx {
                            frequency: configure.frequency,
                            enabled: configure.enabled,
                        },
                        request.id,
                        Awaiting::Configuration,
                    )
                }
            },
            RequestPayload::Status => asks(step, Command::Status, request.id, Awaiting::Status),
        }
    }
}

/// Whether a step is what the arbiter's reply calls for. A receiver that was
/// configured is answered with the status; a reply to something else counts
/// as none.
pub open spec fn resumes(exchange: Exchange, outcome: Result<Reply, Lost>, step: Step) -> bool {
    let id = exchange.id;
    match outcome {
        Err(reason) => says_error(step, id, lost(reason)),
        Ok(reply) => match (exchange.awaiting, reply) {
            (Awaiting::Transmission, Reply::Transmitted(result)) => match result {
                Ok(duration_us) => says(step, id, MessagePayload::Transmitted { duration_us }),
                Err(error) => says_error(step, id, error@),
            },
            (Awaiting::Configuration, Reply::Configured(result)) => match result {
                Ok(_) => asks(step, Command::Status, id, Awaiting::Status),
                Err(error) => says_error(step, id, error@),
            },
            (Awaiting::Status, Reply::Status(status)) => says(
                step,
                id,
                MessagePayload::Status(status),
            ),
            _ => says_error(step, id, lost(Lost::Dropped)),
        },
    }
}

fn error(id: Option<String>, message: String) -> (step: Step)
    ensures
        says_error(step, id, message@),
{
    Step::Say { message: Message::reply(id, MessagePayload::Error { message }) }
}

fn lost_text(reason: Lost) -> (result: String)
    ensures
        result@ == lost(reason),
{
    match reason {
        Lost::Gone => "the radio thread is gone".to_owned(),
        Lost::Dropped => "the radio thread dropped the request".to_owned(),
    }
}

/// What to answer to a text that is no request, given what is wrong with it,
/// and the id that it carries all the same, if one could be read.
pub fn unparsed(id: Option<String>, reason: &str) -> (message: Message)
    ensures
        is_error(message, id, "could not parse request: "@ + reason@),
{
    let mut out: String = String::new();
    out.append("could not parse request: ");
    out.append(reason);
    assert(out@ =~= "could not parse request: "@ + reason@);
    Message::reply(id, MessagePayload::Error { message: out })
}

/// Judge a request.
pub fn begin(request: Request) -> (step: Step)
    ensures
        begins(request, step),
{
    let Request { v, id, payload } = request;
    if v != wire::PROTOCOL_VERSION {
        let mut out: String = String::new();
        out.append("protocol version ");
        text::push_decimal(&mut out, v as u128);
        out.append(" is not supported; this daemon speaks version ");
        text::push_decimal(&mut out, wire::PROTOCOL_VERSION as u128);
        assert(out@ =~= unsupported(v));
        return error(id, out);
    }
    match payload {
        RequestPayload::Transmit(transmit) => {
            // Validate before troubling the radio: a bad request should be a
            // fast, specific refusal, not a wait behind the transmit queue.
            match transmit.validate() {
                Err(invalid) => error(id, invalid.to_string()),
                Ok(_) => Step::Ask {
                    command: Command::Transmit { request: transmit },
                    exchange: Exchange { id, awaiting: Awaiting::Transmission },
                },
            }
        },
        RequestPayload::ConfigureRx(configure) => {
            if let Some(frequency) = configure.frequency {
                if !wire::is_tunable(frequency) {
                    return error(id, wire::out_of_range_text(frequency));
                }
            }
            Step::Ask {
                command: Command::ConfigureRx {
                    frequency: configure.frequency,
                    enabled: configure.enabled,
                },
                exchange: Exchange { id, awaiting: Awaiting::Configuration },
            }
        },
        RequestPayload::Status => Step::Ask {
            command: Command::Status,
            exchange: Exchange { id, awaiting: Awaiting::Status },
        },
    }
}

/// Go on with a request once the arbiter has answered, or failed to.
pub fn resume(exchange: Exchange, outcome: Result<Reply, Lost>) -> (step: Step)
    ensures
        resumes(exchange, outcome, step),
{
    let Exchange { id, awaiting } = exchange;
    match outcome {
        Err(reason) => error(id, lost_text(reason)),
        Ok(reply) => match (awaiting, reply) {
            (Awaiting::Transmission, Reply::Transmitted(result)) => match result {
                Ok(duration_us) => Step::Say {
                    message: Message::reply(id, MessagePayload::Transmitted { duration_us }),
                },
                Err(reason) => error(id, reason),
            },
            (Awaiting::Configuration, Reply::Configured(result)) => match result {
                Ok(_) => Step::Ask {
                    command: Command::Status,
                    exchange: Exchange { id, awaiting: Awaiting::Status },
                },
                Err(reason) => error(id, reason),
            },
            (Awaiting::Status, Reply::Status(status)) => Step::Say {
                message: Message::reply(id, MessagePayload::Status(status)),
            },
            _ => error(id, lost_text(Lost::Dropped)),
        },
    }
}

/// Whether a step keeps to a request: what is said echoes its id and carries
/// the version, and what is asked will.
pub open spec fn belongs(step: Step, id: Option<String>) -> bool {
    match step {
        Step::Say { message } => message.id == id && message.v == wire::PROTOCOL_VERSION,
        Step::Ask { exchange, .. } => exchange.id == id,
    }
}

/// What a client sends: a request, or a text that is none, with the id that
/// could be read of it.
pub enum Incoming {
    Parsed { request: Request },
    Unparsed { id: Option<String>, reason: Seq<char> },
}

impl Incoming {
    /// The id that a client gave.
    pub open spec fn id(self) -> Option<String> {
        match self {
            Incoming::Parsed { request } => request.id,
            Incoming::Unparsed { id, .. } => id,
        }
    }

    /// Whether a step is what this calls for. A text that is no request is
    /// answered at once.
    pub open spec fn calls_for(self, step: Step) -> bool {
        match self {
            Incoming::Parsed { request } => begins(request, step),
            Incoming::Unparsed { id, reason } => says_error(
                step,
                id,
                "could not parse request: "@ + reason,
            ),
        }
    }
}

/// Replies are matched by id: whatever is made of what a client sends, be it a
/// request or not, the reply carries its id, and the protocol's version.
pub proof fn replies_echo_the_id(incoming: Incoming, step: Step)
    requires
        incoming.calls_for(step),
    ensures
        belongs(step, incoming.id()),
{
}

/// The same of what the arbiter's reply leads to.
pub proof fn answers_echo_the_id(exchange: Exchange, outcome: Result<Reply, Lost>, step: Step)
    requires
        resumes(exchange, outcome, step),
    ensures
        belongs(step, exchange.id),
{
}

/// A request that the wire layer can refuse does not reach the arbiter: what
/// is forwarded has passed validation, and nothing of it was changed.
pub proof fn refusals_stop_here(request: Request, step: Step, asked: wire::Transmit)
    requires
        begins(request, step),
        step matches Step::Ask { command: Command::Transmit { request: forwarded }, .. }
            && forwarded == asked,
    ensures
        asked.refusal() is None,
        request.v == wire::PROTOCOL_VERSION,
        request.payload == RequestPayload::Transmit(asked),
{
}

/// What is forwarded can always be rendered, at any rate the radio takes.
pub proof fn forwarded_is_admitted(request: Request, step: Step, state: Control)
    requires
        begins(request, step),
        step is Ask,
        0 < state.config.sample_rate <= 20_000_000,
    ensures
        state.admits(Event::Command(step->command)),
{
    match step->command {
        Command::Transmit { request: asked } => {
            refusals_stop_here(request, step, asked);
            wire::accepted_renders(asked, state.config.sample_rate, state.config.tx_amplitude);
        },
        _ => {},
    }
}

} // verus!
