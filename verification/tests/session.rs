use session_link::bus::EventBus;
use session_link::codec::{encode_response, DecodeError};
use session_link::manager::{SessionManager, SessionState};
use session_link::command::Command;
use session_link::event::{Fault, IoFault, SessionEvent};
use session_link::number::Number;
use session_link::response::{Parameters, Response};
use session_link::session::{Input, Phase, SessionTask};

fn gone(fault: Fault) -> SessionEvent {
    SessionEvent::Disconnected { reason: Some(fault) }
}

fn running() -> SessionTask {
    let mut task = SessionTask::new();
    task.step(Input::Established);
    task
}

fn gain_and_offset() -> Response {
    let mut mapping = Parameters::new();
    mapping.insert("gain".to_string(), Number::parse(b"3.5").unwrap());
    mapping.insert("offset".to_string(), Number::parse(b"-1.0").unwrap());
    Response::Parameters(mapping)
}

#[test]
fn a_connection_is_announced_once() {
    let mut task = SessionTask::new();
    assert_eq!(task.phase(), Phase::Connecting);
    let reaction = task.step(Input::Established);
    assert_eq!(reaction.events, vec![SessionEvent::Connected]);
    assert_eq!(reaction.frame, None);
    assert_eq!(task.phase(), Phase::Running);
    let again = task.step(Input::Established);
    assert!(again.events.is_empty());
    assert_eq!(task.phase(), Phase::Running);
}

#[test]
fn a_failed_connection_publishes_nothing() {
    let mut task = SessionTask::new();
    let reaction = task.step(Input::ConnectFailed);
    assert!(reaction.events.is_empty());
    assert!(task.is_finished());
    assert!(task.step(Input::Established).events.is_empty());
    assert!(task.is_finished());
}

#[test]
fn nothing_is_read_before_the_connection_stands() {
    let mut task = SessionTask::new();
    let reaction = task.step(Input::Received(b"{\"type\":\"Done\"}\n".to_vec()));
    assert!(reaction.events.is_empty());
    assert!(task.step(Input::Send(Command::ListSignals)).frame.is_none());
    assert_eq!(task.phase(), Phase::Connecting);
}

#[test]
fn peer_that_closes_at_once() {
    let mut task = SessionTask::new();
    let mut published = task.step(Input::Established).events;
    published.extend(task.step(Input::EndOfStream).events);
    published.extend(task.step(Input::Received(b"{\"type\":\"Done\"}\n".to_vec())).events);
    published.extend(task.step(Input::Shutdown).events);
    assert_eq!(
        published,
        vec![SessionEvent::Connected, gone(Fault::Io(IoFault::EndOfStream))]
    );
    assert!(task.is_finished());
}

#[test]
fn list_parameters_and_its_answer() {
    let mut task = running();
    let asked = task.step(Input::Send(Command::ListParameters));
    assert!(asked.events.is_empty());
    assert_eq!(asked.frame, Some(b"{\"type\":\"ListParameters\"}\n".to_vec()));
    let answer = b"{\"type\":\"Parameters\",\"0\":{\"gain\":3.5,\"offset\":-1.0}}\n".to_vec();
    let reaction = task.step(Input::Received(answer));
    assert_eq!(reaction.events, vec![SessionEvent::DataReceived(gain_and_offset())]);
    assert_eq!(reaction.frame, None);
    assert_eq!(task.phase(), Phase::Running);
}

#[test]
fn responses_in_pieces_and_in_bulk() {
    let mut task = running();
    let mut stream = encode_response(&Response::Done);
    stream.extend(encode_response(&gain_and_offset()));
    stream.extend(encode_response(&Response::Done));
    let (first, second) = stream.split_at(20);
    assert_eq!(
        task.step(Input::Received(first.to_vec())).events,
        vec![SessionEvent::DataReceived(Response::Done)]
    );
    assert_eq!(
        task.step(Input::Received(second.to_vec())).events,
        vec![
            SessionEvent::DataReceived(gain_and_offset()),
            SessionEvent::DataReceived(Response::Done)
        ]
    );
}

#[test]
fn a_frame_that_is_no_response_ends_the_session() {
    let mut task = running();
    let mut stream = encode_response(&Response::Done);
    stream.extend(b"{\"type\":\"Parameters\"}\n");
    stream.extend(encode_response(&Response::Done));
    let reaction = task.step(Input::Received(stream));
    assert_eq!(
        reaction.events,
        vec![
            SessionEvent::DataReceived(Response::Done),
            gone(Fault::Protocol(DecodeError::UnknownVariant))
        ]
    );
    assert!(task.is_finished());
    assert!(task.step(Input::Received(encode_response(&Response::Done))).events.is_empty());

    let mut other = running();
    let reaction = other.step(Input::Received(b"hello\n".to_vec()));
    assert_eq!(reaction.events, vec![gone(Fault::Protocol(DecodeError::MalformedFrame))]);
    assert!(other.is_finished());
}

#[test]
fn each_failure_ends_the_session_with_its_reason() {
    let cases = [
        (Input::ReadFailed, Some(Fault::Io(IoFault::ReadFailed))),
        (Input::EndOfStream, Some(Fault::Io(IoFault::EndOfStream))),
        (Input::WriteFailed, Some(Fault::Io(IoFault::WriteFailed))),
        (Input::HeartbeatFailed, Some(Fault::Heartbeat)),
        (Input::Shutdown, None),
    ];
    for (input, reason) in cases {
        let mut task = running();
        let reaction = task.step(input);
        assert_eq!(reaction.events, vec![SessionEvent::Disconnected { reason }]);
        assert_eq!(reaction.frame, None);
        assert!(task.is_finished());
    }
}

#[test]
fn a_heartbeat_failure_is_the_last_word() {
    let mut task = running();
    assert_eq!(task.step(Input::HeartbeatFailed).events, vec![gone(Fault::Heartbeat)]);
    let later = [
        Input::Received(encode_response(&Response::Done)),
        Input::HeartbeatFailed,
        Input::WriteFailed,
        Input::EndOfStream,
        Input::Shutdown,
        Input::Established,
        Input::Send(Command::ListParameters),
    ];
    for input in later {
        let reaction = task.step(input);
        assert!(reaction.events.is_empty());
        assert!(reaction.frame.is_none());
    }
}

#[test]
fn a_shutdown_while_connecting_is_silent() {
    let mut task = SessionTask::new();
    assert!(task.step(Input::Shutdown).events.is_empty());
    assert!(task.is_finished());
}

#[test]
fn answers_reach_the_subscribers() {
    let mut bus = EventBus::new(100).unwrap();
    let panel = bus.subscribe();
    let mut manager = SessionManager::new();
    manager.connect("127.0.0.1:5000".to_string()).unwrap();
    let mut task = SessionTask::new();
    let answer = b"{\"type\":\"Parameters\",\"0\":{\"gain\":3.5,\"offset\":-1.0}}\n".to_vec();
    let inputs = [
        Input::Established,
        Input::Send(Command::ListParameters),
        Input::Received(answer),
        Input::Shutdown,
    ];
    for input in inputs {
        bus.publish_all(&task.step(input).events);
    }
    let seen = bus.drain(panel);
    assert_eq!(
        seen,
        vec![
            SessionEvent::Connected,
            SessionEvent::DataReceived(gain_and_offset()),
            SessionEvent::Disconnected { reason: None }
        ]
    );
    for event in &seen {
        manager.observe(event);
    }
    assert_eq!(manager.state(), SessionState::Disconnected(None));
}
