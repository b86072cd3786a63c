//! What is made of a request.

use hackrf_proxyd::engine::{Command, Reply};
use hackrf_proxyd::server::{begin, resume, unparsed, Awaiting, Exchange, Lost, Step};
use hackrf_proxyd::wire::{
    ConfigureRx, Counters, DeviceState, Message, MessagePayload, Request, RequestPayload, RxStatus,
    Status, Transmit, PROTOCOL_VERSION,
};

fn request(id: Option<&str>, payload: RequestPayload) -> Request {
    Request { v: PROTOCOL_VERSION, id: id.map(str::to_string), payload }
}

fn transmit(timings: Vec<i64>, repeat: u32) -> RequestPayload {
    RequestPayload::Transmit(Transmit {
        frequency: 315_000_000,
        timings,
        repeat,
        gap_us: 10_000,
        txvga_db: None,
        amp: false,
    })
}

fn said(step: Step) -> Message {
    match step {
        Step::Say { message } => message,
        Step::Ask { command, .. } => panic!("the arbiter was asked: {command:?}"),
    }
}

fn asked(step: Step) -> (Command, Exchange) {
    match step {
        Step::Ask { command, exchange } => (command, exchange),
        Step::Say { message } => panic!("nothing was asked: {message:?}"),
    }
}

fn words(message: &Message) -> &str {
    match &message.payload {
        MessagePayload::Error { message } => message,
        other => panic!("no error: {other:?}"),
    }
}

fn a_status() -> Box<Status> {
    Box::new(Status {
        daemon_version: "0.0.1".into(),
        protocol_version: PROTOCOL_VERSION,
        state: DeviceState::Faulted,
        device: None,
        rx: RxStatus {
            enabled: true,
            frequency: 315_000_000,
            sample_rate: 2_000_000,
            threshold: None,
        },
        counters: Counters::default(),
    })
}

#[test]
fn a_malformed_request_gets_a_parse_error_not_a_dropped_connection() {
    let reply = unparsed(None, "expected ident at line 1 column 2");
    assert_eq!(words(&reply), "could not parse request: expected ident at line 1 column 2");
    assert_eq!(reply.id, None);
    assert_eq!(reply.v, PROTOCOL_VERSION);
}

#[test]
fn a_malformed_request_keeps_its_id() {
    let reply = unparsed(Some("x".to_string()), "unknown variant `nonsense`");
    assert_eq!(words(&reply), "could not parse request: unknown variant `nonsense`");
    assert_eq!(reply.id.as_deref(), Some("x"));
    assert_eq!(reply.v, PROTOCOL_VERSION);
}

#[test]
fn a_future_protocol_version_is_refused_by_name() {
    let reply = said(begin(Request { v: 99, id: None, payload: RequestPayload::Status }));

    assert_eq!(
        words(&reply),
        "protocol version 99 is not supported; this daemon speaks version 1"
    );
}

#[test]
fn an_invalid_transmit_is_refused_without_reaching_the_radio() {
    let reply = said(begin(request(Some("x"), transmit(vec![], 0))));

    assert_eq!(reply.id.as_deref(), Some("x"));
    assert!(words(&reply).contains("no timings"));
}

#[test]
fn a_transmit_is_forwarded_and_its_reply_carries_the_id() {
    let (command, exchange) = asked(begin(request(Some("7"), transmit(vec![500, -500], 9))));
    match command {
        Command::Transmit { request } => {
            assert_eq!(request.frequency, 315_000_000);
            assert_eq!(request.repeat, 9);
        }
        other => panic!("wrong command: {other:?}"),
    }
    assert_eq!(exchange.awaiting, Awaiting::Transmission);

    let reply = said(resume(exchange, Ok(Reply::Transmitted(Ok(811_000)))));
    assert_eq!(reply.id.as_deref(), Some("7"));
    assert!(matches!(reply.payload, MessagePayload::Transmitted { duration_us: 811_000 }));
}

#[test]
fn a_configured_receiver_is_answered_with_the_status() {
    let configure = ConfigureRx { frequency: Some(433_920_000), enabled: true };
    let (command, exchange) =
        asked(begin(request(Some("abc"), RequestPayload::ConfigureRx(configure))));
    assert!(matches!(
        command,
        Command::ConfigureRx { frequency: Some(433_920_000), enabled: true }
    ));

    let (command, exchange) = asked(resume(exchange, Ok(Reply::Configured(Ok(())))));
    assert!(matches!(command, Command::Status));

    let reply = said(resume(exchange, Ok(Reply::Status(a_status()))));
    assert_eq!(reply.id.as_deref(), Some("abc"));
    match reply.payload {
        MessagePayload::Status(status) => assert_eq!(status.state, DeviceState::Faulted),
        other => panic!("no status: {other:?}"),
    }
}

#[test]
fn an_impossible_frequency_is_refused() {
    let configure = ConfigureRx { frequency: Some(999_999), enabled: true };
    let reply = said(begin(request(Some("f"), RequestPayload::ConfigureRx(configure))));
    assert_eq!(words(&reply), "999999 Hz is outside the radio's 1 MHz–6 GHz range");

    let keep = ConfigureRx { frequency: None, enabled: false };
    let (command, _) = asked(begin(request(None, RequestPayload::ConfigureRx(keep))));
    assert!(matches!(command, Command::ConfigureRx { frequency: None, enabled: false }));
}

#[test]
fn the_radios_own_words_reach_the_client() {
    let (_, exchange) = asked(begin(request(Some("7"), transmit(vec![500], 0))));
    let reply = said(resume(exchange, Ok(Reply::Transmitted(Err("USB went away".into())))));
    assert_eq!(words(&reply), "USB went away");
    assert_eq!(reply.id.as_deref(), Some("7"));

    let configure = ConfigureRx { frequency: None, enabled: true };
    let (_, exchange) = asked(begin(request(None, RequestPayload::ConfigureRx(configure))));
    let reply = said(resume(exchange, Ok(Reply::Configured(Err("radio is not there".into())))));
    assert_eq!(words(&reply), "radio is not there");
}

#[test]
fn a_radio_thread_that_is_gone_is_an_answer_too() {
    let (_, exchange) = asked(begin(request(Some("1"), RequestPayload::Status)));
    let reply = said(resume(exchange.clone(), Err(Lost::Gone)));
    assert_eq!(words(&reply), "the radio thread is gone");
    assert_eq!(reply.id.as_deref(), Some("1"));

    let reply = said(resume(exchange.clone(), Err(Lost::Dropped)));
    assert_eq!(words(&reply), "the radio thread dropped the request");

    let reply = said(resume(exchange, Ok(Reply::Configured(Ok(())))));
    assert_eq!(words(&reply), "the radio thread dropped the request");
}
