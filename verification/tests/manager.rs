use session_link::command::Command;
use session_link::event::{Fault, IoFault, SessionEvent};
use session_link::manager::{ConnectError, ManagerError, SessionManager, SessionState};
use session_link::response::Response;

#[test]
fn disconnect_without_a_session() {
    let mut manager = SessionManager::new();
    assert!(!manager.disconnect());
    assert!(!manager.disconnect());
    assert_eq!(manager.state(), SessionState::Idle);
    assert!(!manager.shutdown_requested());
    assert!(manager.take_outbound().is_empty());
}

#[test]
fn a_second_connect_fails_fast() {
    let mut manager = SessionManager::new();
    assert_eq!(manager.connect("127.0.0.1:5000".to_string()), Ok(()));
    assert_eq!(manager.state(), SessionState::Connecting);
    assert_eq!(manager.address(), "127.0.0.1:5000");
    assert_eq!(manager.connect("10.0.0.1:1".to_string()), Err(ManagerError::AlreadyConnected));
    assert_eq!(manager.address(), "127.0.0.1:5000");
    manager.observe(&SessionEvent::Connected);
    assert_eq!(manager.state(), SessionState::Connected);
    assert_eq!(manager.connect("10.0.0.1:1".to_string()), Err(ManagerError::AlreadyConnected));
    assert_eq!(manager.state(), SessionState::Connected);
}

#[test]
fn a_failed_attempt_leaves_its_error() {
    let mut manager = SessionManager::new();
    manager.connect_failed(ConnectError::Refused);
    assert_eq!(manager.last_error(), None);
    manager.connect("nowhere:1".to_string()).unwrap();
    manager.connect_failed(ConnectError::Resolve);
    assert_eq!(manager.state(), SessionState::Idle);
    assert_eq!(manager.last_error(), Some(ConnectError::Resolve));
    manager.connect("nowhere:1".to_string()).unwrap();
    assert_eq!(manager.last_error(), None);
}

#[test]
fn send_without_a_session() {
    let mut manager = SessionManager::new();
    assert_eq!(manager.send(Command::ListParameters), Err(ManagerError::NotConnected));
    assert!(manager.take_outbound().is_empty());
}

#[test]
fn commands_wait_in_order() {
    let mut manager = SessionManager::new();
    manager.connect("127.0.0.1:5000".to_string()).unwrap();
    assert_eq!(manager.send(Command::ListParameters), Ok(()));
    manager.observe(&SessionEvent::Connected);
    assert_eq!(manager.send(Command::ListSignals), Ok(()));
    assert_eq!(manager.take_outbound(), vec![Command::ListParameters, Command::ListSignals]);
    assert!(manager.take_outbound().is_empty());
}

#[test]
fn the_state_follows_the_events() {
    let mut manager = SessionManager::new();
    manager.observe(&SessionEvent::Connected);
    assert_eq!(manager.state(), SessionState::Idle);
    manager.connect("127.0.0.1:5000".to_string()).unwrap();
    manager.observe(&SessionEvent::DataReceived(Response::Done));
    assert_eq!(manager.state(), SessionState::Connecting);
    manager.observe(&SessionEvent::Connected);
    manager.observe(&SessionEvent::DataReceived(Response::Done));
    assert_eq!(manager.state(), SessionState::Connected);
    assert!(manager.disconnect());
    assert!(manager.shutdown_requested());
    assert_eq!(manager.state(), SessionState::Connected);
    manager.send(Command::ListSignals).unwrap();
    manager.observe(&SessionEvent::Disconnected { reason: None });
    assert_eq!(manager.state(), SessionState::Disconnected(None));
    assert!(!manager.shutdown_requested());
    assert!(manager.take_outbound().is_empty());
    assert_eq!(manager.send(Command::ListSignals), Err(ManagerError::NotConnected));
    manager.connect("127.0.0.1:5000".to_string()).unwrap();
    manager.observe(&SessionEvent::Connected);
    let lost = Some(Fault::Io(IoFault::ReadFailed));
    manager.observe(&SessionEvent::Disconnected { reason: lost });
    assert_eq!(manager.state(), SessionState::Disconnected(lost));
    manager.observe(&SessionEvent::Disconnected { reason: None });
    assert_eq!(manager.state(), SessionState::Disconnected(lost));
}

#[test]
fn the_last_reason_stays_until_a_new_connection_stands() {
    let mut manager = SessionManager::new();
    assert_eq!(manager.last_disconnect(), None);
    manager.connect("127.0.0.1:5000".to_string()).unwrap();
    manager.observe(&SessionEvent::Connected);
    let lost = Some(Fault::Heartbeat);
    manager.observe(&SessionEvent::Disconnected { reason: lost });
    assert_eq!(manager.last_disconnect(), Some(lost));
    manager.connect("127.0.0.1:5000".to_string()).unwrap();
    assert_eq!(manager.state(), SessionState::Connecting);
    assert_eq!(manager.last_disconnect(), Some(lost));
    manager.connect_failed(ConnectError::Unreachable);
    assert_eq!(manager.last_disconnect(), Some(lost));
    manager.connect("127.0.0.1:5000".to_string()).unwrap();
    manager.observe(&SessionEvent::Connected);
    assert_eq!(manager.last_disconnect(), None);
    manager.observe(&SessionEvent::Disconnected { reason: None });
    assert_eq!(manager.last_disconnect(), Some(None));
}
