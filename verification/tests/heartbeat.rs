use session_link::heartbeat::HeartbeatMonitor;
use session_link::session::{Input, SessionTask};

#[test]
fn one_probe_per_interval() {
    let mut monitor = HeartbeatMonitor::new(1000, b"ping".to_vec(), 5_000);
    assert_eq!(monitor.tick(5_000), None);
    assert_eq!(monitor.tick(5_999), None);
    assert_eq!(monitor.tick(6_000), Some(b"ping".to_vec()));
    assert_eq!(monitor.tick(6_000), None);
    assert_eq!(monitor.tick(6_999), None);
    assert_eq!(monitor.tick(7_250), Some(b"ping".to_vec()));
    assert_eq!(monitor.tick(8_249), None);
    assert_eq!(monitor.tick(8_250), Some(b"ping".to_vec()));
}

#[test]
fn a_written_probe_changes_nothing() {
    let mut monitor = HeartbeatMonitor::new(10, b"ping".to_vec(), 0);
    assert!(monitor.report(true).is_none());
    assert!(!monitor.is_stopped());
    assert_eq!(monitor.tick(10), Some(b"ping".to_vec()));
}

#[test]
fn a_probe_that_fails_stops_the_monitor() {
    let mut monitor = HeartbeatMonitor::new(10, b"ping".to_vec(), 0);
    assert_eq!(monitor.tick(10), Some(b"ping".to_vec()));
    let teardown = monitor.report(false);
    assert!(matches!(teardown, Some(Input::HeartbeatFailed)));
    assert!(monitor.is_stopped());
    assert!(monitor.report(false).is_none());
    assert!(monitor.report(true).is_none());
    assert_eq!(monitor.tick(1_000_000), None);

    let mut task = SessionTask::new();
    task.step(Input::Established);
    assert_eq!(task.step(teardown.unwrap()).events.len(), 1);
    assert!(task.is_finished());
}

#[test]
fn the_clock_does_not_wrap() {
    let mut monitor = HeartbeatMonitor::new(10, b"ping".to_vec(), u64::MAX - 5);
    assert_eq!(monitor.tick(u64::MAX - 1), None);
    assert_eq!(monitor.tick(u64::MAX), Some(b"ping".to_vec()));
    assert_eq!(monitor.tick(u64::MAX), Some(b"ping".to_vec()));
}

#[test]
fn a_stopped_monitor_hands_out_nothing() {
    let mut monitor = HeartbeatMonitor::new(0, b"ping".to_vec(), 0);
    assert_eq!(monitor.tick(0), Some(b"ping".to_vec()));
    monitor.stop();
    assert!(monitor.is_stopped());
    assert_eq!(monitor.tick(1), None);
}
