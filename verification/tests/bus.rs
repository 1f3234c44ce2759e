use session_link::bus::EventBus;
use session_link::event::{Fault, IoFault, SessionEvent};
use session_link::number::Number;
use session_link::response::{Parameters, Response};

fn closed(reason: Option<Fault>) -> SessionEvent {
    SessionEvent::Disconnected { reason }
}

fn reading(value: u32) -> SessionEvent {
    let mut mapping = Parameters::new();
    mapping.insert("count".to_string(), Number::parse(value.to_string().as_bytes()).unwrap());
    SessionEvent::DataReceived(Response::Parameters(mapping))
}

#[test]
fn a_bus_needs_room() {
    assert!(EventBus::new(0).is_none());
    assert!(EventBus::new(1).is_some());
}

#[test]
fn overflow_drops_the_oldest() {
    let mut bus = EventBus::new(2).unwrap();
    let id = bus.subscribe();
    bus.publish(SessionEvent::Connected);
    bus.publish(closed(Some(Fault::Io(IoFault::EndOfStream))));
    bus.publish(closed(None));
    let got = bus.drain(id);
    assert_eq!(got, vec![closed(Some(Fault::Io(IoFault::EndOfStream))), closed(None)]);
    assert_eq!(bus.drain(id), vec![]);
}

#[test]
fn the_last_events_survive_in_order() {
    for capacity in 1..6usize {
        for published in 0..12u32 {
            let mut bus = EventBus::new(capacity).unwrap();
            let id = bus.subscribe();
            for value in 0..published {
                bus.publish(reading(value));
            }
            let kept = (published as usize).min(capacity) as u32;
            let expected: Vec<SessionEvent> = (published - kept..published).map(reading).collect();
            assert_eq!(bus.drain(id), expected);
            assert_eq!(bus.drain(id), vec![]);
        }
    }
}

#[test]
fn every_subscriber_reads_at_its_own_pace() {
    let mut bus = EventBus::new(3).unwrap();
    let early = bus.subscribe();
    bus.publish(reading(1));
    let late = bus.subscribe();
    bus.publish(reading(2));
    assert_eq!(bus.drain(early), vec![reading(1), reading(2)]);
    bus.publish(reading(3));
    bus.publish(reading(4));
    bus.publish(reading(5));
    assert_eq!(bus.drain(late), vec![reading(3), reading(4), reading(5)]);
    assert_eq!(bus.drain(early), vec![reading(3), reading(4), reading(5)]);
    bus.publish(reading(6));
    assert_eq!(bus.drain(early), vec![reading(6)]);
    assert_eq!(bus.drain(late), vec![reading(6)]);
}

#[test]
fn draining_does_not_wait() {
    let mut bus = EventBus::new(4).unwrap();
    let id = bus.subscribe();
    assert_eq!(bus.drain(id), vec![]);
    assert_eq!(bus.drain(id + 1), vec![]);
    bus.publish(SessionEvent::Connected);
    assert_eq!(bus.drain(id + 1), vec![]);
    assert_eq!(bus.drain(id), vec![SessionEvent::Connected]);
}

#[test]
fn publishing_to_nobody() {
    let mut bus = EventBus::new(2).unwrap();
    bus.publish(SessionEvent::Connected);
    bus.publish(SessionEvent::Connected);
    bus.publish(SessionEvent::Connected);
    let id = bus.subscribe();
    assert_eq!(bus.drain(id), vec![]);
    bus.publish(closed(None));
    assert_eq!(bus.drain(id), vec![closed(None)]);
}

#[test]
fn unsubscribing_leaves_the_others_alone() {
    let mut bus = EventBus::new(2).unwrap();
    let first = bus.subscribe();
    let second = bus.subscribe();
    bus.publish(reading(1));
    bus.unsubscribe(first);
    bus.unsubscribe(first);
    bus.unsubscribe(99);
    bus.publish(reading(2));
    assert_eq!(bus.drain(first), vec![]);
    assert_eq!(bus.drain(second), vec![reading(1), reading(2)]);
    bus.unsubscribe(second);
    bus.publish(reading(3));
    let third = bus.subscribe();
    assert_eq!(third, 2);
    bus.publish(reading(4));
    assert_eq!(bus.drain(third), vec![reading(4)]);
    assert_eq!(bus.drain(second), vec![]);
}
