//! The heartbeat monitor: when a liveness probe is due, and what follows
//! when one cannot be written.
//!
//! The monitor does not write. It says when the next probe is due, hands
//! out the bytes to write, and is told how the write went. A probe that was
//! written is of no further interest; one that could not be written ends
//! the session, and the monitor stops.

use crate::session::{Input, InputView};
use vstd::prelude::*;

verus! {

/// A monitor as contracts speak of it. Times are in milliseconds on the
/// clock of whoever polls.
pub struct MonitorView {
    pub interval: nat,
    pub probe: Seq<u8>,
    pub next_due: nat,
    pub stopped: bool,
}

/// Whether a probe is to be written at `now`.
pub open spec fn due(monitor: MonitorView, now: nat) -> bool {
    !monitor.stopped && now >= monitor.next_due
}

/// The time that is `interval` after `now`, as far as the clock reaches.
pub open spec fn later(now: nat, interval: nat) -> nat {
    if now + interval > u64::MAX {
        u64::MAX as nat
    } else {
        now + interval
    }
}

/// The heartbeat monitor of one session.
#[derive(Debug)]
pub struct HeartbeatMonitor {
    interval_ms: u64,
    probe: Vec<u8>,
    next_due_ms: u64,
    stopped: bool,
}

impl View for HeartbeatMonitor {
    type V = MonitorView;

    closed spec fn view(&self) -> MonitorView {
        MonitorView {
            interval: self.interval_ms as nat,
            probe: self.probe@,
            next_due: self.next_due_ms as nat,
            stopped: self.stopped,
        }
    }
}

impl HeartbeatMonitor {
    /// A monitor for a session that was connected at `now_ms`. The first
    /// probe is due one interval later.
    pub fn new(interval_ms: u64, probe: Vec<u8>, now_ms: u64) -> (monitor: HeartbeatMonitor)
        ensures
            monitor@ == (MonitorView {
                interval: interval_ms as nat,
                probe: probe@,
                next_due: later(now_ms as nat, interval_ms as nat),
                stopped: false,
            }),
    {
        let next_due_ms: u64 = if now_ms > u64::MAX - interval_ms {
            u64::MAX
        } else {
            now_ms + interval_ms
        };
        HeartbeatMonitor { interval_ms, probe, next_due_ms, stopped: false }
    }

    /// Whether the monitor has stopped.
    pub fn is_stopped(&self) -> (stopped: bool)
        ensures
            stopped == self@.stopped,
    {
        self.stopped
    }

    /// Hands out the probe when one is due at `now_ms`, and none before the
    /// interval has passed again. A monitor that has stopped hands out
    /// nothing.
    pub fn tick(&mut self, now_ms: u64) -> (probe: Option<Vec<u8>>)
        ensures
            due(old(self)@, now_ms as nat) ==> (probe matches Some(bytes) && bytes@ == old(
                self,
            )@.probe) && final(self)@ == (MonitorView {
                next_due: later(now_ms as nat, old(self)@.interval),
                ..old(self)@
            }),
            !due(old(self)@, now_ms as nat) ==> probe is None && final(self)@ == old(self)@,
    {
        if self.stopped || now_ms < self.next_due_ms {
            return None;
        }
        self.next_due_ms = if now_ms > u64::MAX - self.interval_ms {
            u64::MAX
        } else {
            now_ms + self.interval_ms
        };
        Some(vstd::slice::slice_to_vec(self.probe.as_slice()))
    }

    /// Takes note of how the write of a probe went. A probe that was
    /// written changes nothing. The first one that was not stops the
    /// monitor and gives the input that ends the session.
    pub fn report(&mut self, written: bool) -> (teardown: Option<Input>)
        ensures
            written || old(self)@.stopped ==> teardown is None && final(self)@ == old(self)@,
            !written && !old(self)@.stopped ==> (teardown matches Some(input) && input@
                == InputView::HeartbeatFailed) && final(self)@ == (MonitorView {
                stopped: true,
                ..old(self)@
            }),
    {
        if written || self.stopped {
            return None;
        }
        self.stopped = true;
        Some(Input::HeartbeatFailed)
    }

    /// Stops the monitor, for a session that has ended.
    pub fn stop(&mut self)
        ensures
            final(self)@ == (MonitorView { stopped: true, ..old(self)@ }),
    {
        self.stopped = true;
    }
}

} // verus!
