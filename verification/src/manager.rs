//! The session manager: what the presentation layer calls, and the state it
//! sees.
//!
//! The manager never touches the socket. It follows the session through
//! the events that are published, keeps the commands that wait to be sent,
//! and remembers that an end was asked for. Whoever runs the session takes
//! the commands and the request from here.

use crate::command::{Command, CommandView};
use crate::event::{EventView, Fault, SessionEvent};
use crate::framing::lines_of;
use crate::session::{
    all_responses, data_only, initial, lemma_deliver_shape, lemma_session_is_orderly, react, run,
    InputView, Phase,
};
use vstd::prelude::*;

verus! {

/// Why a connection could not be opened.
#[derive(Clone, Copy, Debug, PartialEq, Eq, Structural)]
pub enum ConnectError {
    /// The address cannot be reached.
    Unreachable,
    /// The peer refused the connection.
    Refused,
    /// The host name did not resolve.
    Resolve,
}

/// A call that does not fit the state of the session.
#[derive(Clone, Copy, Debug, PartialEq, Eq, Structural)]
pub enum ManagerError {
    /// `connect` while a session exists.
    AlreadyConnected,
    /// `send` while no session exists.
    NotConnected,
}

/// The state of the session as callers see it.
#[derive(Clone, Copy, Debug, PartialEq, Eq, Structural)]
pub enum SessionState {
    /// No session, and none was lost.
    Idle,
    /// A connection is being opened.
    Connecting,
    /// The connection stands.
    Connected,
    /// The session is gone; `None` after a shutdown on request.
    Disconnected(Option<Fault>),
}

/// Whether a session exists in this state.
pub open spec fn has_session(state: SessionState) -> bool {
    state is Connecting || state is Connected
}

/// A manager as contracts speak of it.
pub struct ManagerView {
    pub state: SessionState,
    /// Where the session connects to.
    pub address: Seq<char>,
    /// Why the last attempt to connect failed, if it did.
    pub last_error: Option<ConnectError>,
    /// How the last session ended (`Some(None)` after a shutdown on
    /// request), until a new one stands.
    pub last_disconnect: Option<Option<Fault>>,
    /// The commands that wait to be handed to the session, oldest first.
    pub outbound: Seq<CommandView>,
    /// Whether the end of the session was asked for.
    pub shutdown: bool,
}

/// The commands of a sequence as contracts speak of them.
pub open spec fn command_views(commands: Seq<Command>) -> Seq<CommandView> {
    Seq::new(commands.len(), |i: int| commands[i]@)
}

/// The state after an event of the session was seen.
pub open spec fn observed(manager: ManagerView, event: EventView) -> ManagerView {
    match event {
        EventView::Connected => if manager.state is Connecting {
            ManagerView { state: SessionState::Connected, last_disconnect: None, ..manager }
        } else {
            manager
        },
        EventView::Disconnected { reason } => if has_session(manager.state) {
            ManagerView {
                state: SessionState::Disconnected(reason),
                last_disconnect: Some(reason),
                outbound: Seq::empty(),
                shutdown: false,
                ..manager
            }
        } else {
            manager
        },
        EventView::DataReceived(_) => manager,
    }
}

/// The state after a run of events was seen, one after the other.
pub open spec fn followed(manager: ManagerView, trace: Seq<EventView>) -> ManagerView
    decreases trace.len(),
{
    if trace.len() == 0 {
        manager
    } else {
        observed(followed(manager, trace.drop_last()), trace.last())
    }
}

/// How the state that callers see goes with the phase of the session task
/// whose events were seen.
pub open spec fn mirrors(state: SessionState, phase: Phase, trace: Seq<EventView>) -> bool {
    match phase {
        Phase::Connecting => state is Connecting,
        Phase::Running => state is Connected,
        Phase::Terminated => if trace.len() == 0 {
            state is Connecting
        } else {
            state is Disconnected && trace.last() == (EventView::Disconnected {
                reason: state->Disconnected_0,
            })
        },
    }
}

/// Seeing one run of events and then another is seeing them in one run.
proof fn lemma_followed_append(manager: ManagerView, first: Seq<EventView>, second: Seq<EventView>)
    ensures
        followed(manager, first + second) == followed(followed(manager, first), second),
    decreases second.len(),
{
    if second.len() == 0 {
        assert(first + second =~= first);
    } else {
        assert((first + second).drop_last() =~= first + second.drop_last());
        lemma_followed_append(manager, first, second.drop_last());
    }
}

/// Responses do not change the state.
proof fn lemma_followed_data(manager: ManagerView, events: Seq<EventView>)
    requires
        data_only(events),
    ensures
        followed(manager, events) == manager,
    decreases events.len(),
{
    if events.len() > 0 {
        assert(data_only(events.drop_last())) by {
            assert forall|i: int| 0 <= i < events.len() - 1 implies #[trigger] events.drop_last()[i]
                is DataReceived by {
                assert(events.drop_last()[i] == events[i]);
            }
        }
        lemma_followed_data(manager, events.drop_last());
        assert(events.last() is DataReceived);
    }
}

/// The state that callers see mirrors the session. A manager that started
/// an attempt and then sees everything that the session task publishes is
/// connecting while the task is, connected while the task runs, and
/// disconnected, with the reason that was published, once the task has
/// ended after it was connected.
pub proof fn lemma_manager_mirrors_session(manager: ManagerView, inputs: Seq<InputView>)
    requires
        manager.state is Connecting,
    ensures
        mirrors(
            followed(manager, run(initial(), inputs).1).state,
            run(initial(), inputs).0.phase,
            run(initial(), inputs).1,
        ),
    decreases inputs.len(),
{
    if inputs.len() > 0 {
        let (before, trace) = run(initial(), inputs.drop_last());
        let (after, reaction) = react(before, inputs.last());
        let events = reaction.events;
        lemma_manager_mirrors_session(manager, inputs.drop_last());
        lemma_session_is_orderly(inputs.drop_last());
        lemma_followed_append(manager, trace, events);
        let seen = followed(manager, trace);
        if events.len() == 0 {
            assert(trace + events =~= trace);
        } else if before.phase == Phase::Running {
            match inputs.last() {
                InputView::Received(chunk) => {
                    let frames = lines_of(before.pending + chunk);
                    lemma_deliver_shape(frames);
                    if all_responses(frames) {
                        lemma_followed_data(seen, events);
                    } else {
                        lemma_followed_data(seen, events.drop_last());
                        assert((trace + events).last() == events.last());
                    }
                },
                _ => {
                    assert(events.drop_last() =~= Seq::<EventView>::empty());
                    assert((trace + events).last() == events.last());
                },
            }
        } else {
            assert(events.drop_last() =~= Seq::<EventView>::empty());
        }
    }
}

/// The session manager.
#[derive(Debug)]
pub struct SessionManager {
    state: SessionState,
    address: String,
    last_error: Option<ConnectError>,
    last_disconnect: Option<Option<Fault>>,
    outbound: Vec<Command>,
    shutdown: bool,
}

impl View for SessionManager {
    type V = ManagerView;

    closed spec fn view(&self) -> ManagerView {
        ManagerView {
            state: self.state,
            address: self.address@,
            last_error: self.last_error,
            last_disconnect: self.last_disconnect,
            outbound: command_views(self.outbound@),
            shutdown: self.shutdown,
        }
    }
}

impl SessionManager {
    /// A manager without a session.
    pub fn new() -> (manager: SessionManager)
        ensures
            manager@ == (ManagerView {
                state: SessionState::Idle,
                address: Seq::empty(),
                last_error: None,
                last_disconnect: None,
                outbound: Seq::empty(),
                shutdown: false,
            }),
    {
        let manager = SessionManager {
            state: SessionState::Idle,
            address: String::new(),
            last_error: None,
            last_disconnect: None,
            outbound: Vec::new(),
            shutdown: false,
        };
        assert(manager@.outbound =~= Seq::<CommandView>::empty());
        manager
    }

    /// The state of the session.
    pub fn state(&self) -> (state: SessionState)
        ensures
            state == self@.state,
    {
        self.state
    }

    /// Where the session connects to.
    pub fn address(&self) -> (address: &String)
        ensures
            address@ == self@.address,
    {
        &self.address
    }

    /// Why the last attempt to connect failed, if it did.
    pub fn last_error(&self) -> (error: Option<ConnectError>)
        ensures
            error == self@.last_error,
    {
        self.last_error
    }

    /// How the last session ended, for as long as no new one stands.
    pub fn last_disconnect(&self) -> (reason: Option<Option<Fault>>)
        ensures
            reason == self@.last_disconnect,
    {
        self.last_disconnect
    }

    /// Whether the end of the session was asked for and is still to come.
    pub fn shutdown_requested(&self) -> (asked: bool)
        ensures
            asked == self@.shutdown,
    {
        self.shutdown
    }

    /// Starts a connection attempt to `address`. While a session exists
    /// this fails at once and changes nothing.
    pub fn connect(&mut self, address: String) -> (r: Result<(), ManagerError>)
        ensures
            has_session(old(self)@.state) ==> r == Err::<(), ManagerError>(
                ManagerError::AlreadyConnected,
            ) && final(self)@ == old(self)@,
            !has_session(old(self)@.state) ==> r is Ok && final(self)@ == (ManagerView {
                state: SessionState::Connecting,
                address: address@,
                last_error: None,
                outbound: Seq::empty(),
                shutdown: false,
                ..old(self)@
            }),
    {
        match self.state {
            SessionState::Connecting => Err(ManagerError::AlreadyConnected),
            SessionState::Connected => Err(ManagerError::AlreadyConnected),
            _ => {
                self.state = SessionState::Connecting;
                self.address = address;
                self.last_error = None;
                self.outbound = Vec::new();
                self.shutdown = false;
                assert(self@.outbound =~= Seq::<CommandView>::empty());
                Ok(())
            },
        }
    }

    /// Takes note that the connection could not be opened: the manager is
    /// idle again, with the error attached. Without an attempt under way
    /// nothing changes.
    pub fn connect_failed(&mut self, error: ConnectError)
        ensures
            old(self)@.state is Connecting ==> final(self)@ == (ManagerView {
                state: SessionState::Idle,
                last_error: Some(error),
                outbound: Seq::empty(),
                shutdown: false,
                ..old(self)@
            }),
            !(old(self)@.state is Connecting) ==> final(self)@ == old(self)@,
    {
        match self.state {
            SessionState::Connecting => {
                self.state = SessionState::Idle;
                self.last_error = Some(error);
                self.outbound = Vec::new();
                self.shutdown = false;
                assert(self@.outbound =~= Seq::<CommandView>::empty());
            },
            _ => {},
        }
    }

    /// Follows the session: takes note of an event that was published.
    pub fn observe(&mut self, event: &SessionEvent)
        ensures
            final(self)@ == observed(old(self)@, event@),
    {
        match event {
            SessionEvent::Connected => {
                match self.state {
                    SessionState::Connecting => {
                        self.state = SessionState::Connected;
                        self.last_disconnect = None;
                    },
                    _ => {},
                }
            },
            SessionEvent::Disconnected { reason } => {
                match self.state {
                    SessionState::Connecting => {
                        self.close(*reason);
                    },
                    SessionState::Connected => {
                        self.close(*reason);
                    },
                    _ => {},
                }
            },
            SessionEvent::DataReceived(_) => {},
        }
    }

    /// Takes note that the session is gone.
    fn close(&mut self, reason: Option<Fault>)
        ensures
            final(self)@ == (ManagerView {
                state: SessionState::Disconnected(reason),
                last_disconnect: Some(reason),
                outbound: Seq::empty(),
                shutdown: false,
                ..old(self)@
            }),
    {
        self.state = SessionState::Disconnected(reason);
        self.last_disconnect = Some(reason);
        self.outbound = Vec::new();
        self.shutdown = false;
        assert(self@.outbound =~= Seq::<CommandView>::empty());
    }

    /// Hands a command to the session. Without a session nothing happens,
    /// and the caller is told so.
    pub fn send(&mut self, command: Command) -> (r: Result<(), ManagerError>)
        ensures
            has_session(old(self)@.state) ==> r is Ok && final(self)@ == (ManagerView {
                outbound: old(self)@.outbound.push(command@),
                ..old(self)@
            }),
            !has_session(old(self)@.state) ==> r == Err::<(), ManagerError>(
                ManagerError::NotConnected,
            ) && final(self)@ == old(self)@,
    {
        match self.state {
            SessionState::Connecting => {
                self.queue(command);
                Ok(())
            },
            SessionState::Connected => {
                self.queue(command);
                Ok(())
            },
            _ => Err(ManagerError::NotConnected),
        }
    }

    /// Puts a command behind those that wait.
    fn queue(&mut self, command: Command)
        ensures
            final(self)@ == (ManagerView {
                outbound: old(self)@.outbound.push(command@),
                ..old(self)@
            }),
    {
        self.outbound.push(command);
        assert(self@.outbound =~= old(self)@.outbound.push(command@));
    }

    /// Takes the commands that wait, oldest first, to pass them to the
    /// session task.
    pub fn take_outbound(&mut self) -> (commands: Vec<Command>)
        ensures
            command_views(commands@) == old(self)@.outbound,
            final(self)@ == (ManagerView { outbound: Seq::empty(), ..old(self)@ }),
    {
        let mut commands: Vec<Command> = Vec::new();
        core::mem::swap(&mut self.outbound, &mut commands);
        assert(self@.outbound =~= Seq::<CommandView>::empty());
        commands
    }

    /// Asks for the end of the session. The answer tells whether there is a
    /// session to end; without one nothing happens. Asking again changes
    /// nothing more.
    pub fn disconnect(&mut self) -> (signalled: bool)
        ensures
            signalled == has_session(old(self)@.state),
            signalled ==> final(self)@ == (ManagerView { shutdown: true, ..old(self)@ }),
            !signalled ==> final(self)@ == old(self)@,
    {
        match self.state {
            SessionState::Connecting => {
                self.shutdown = true;
                true
            },
            SessionState::Connected => {
                self.shutdown = true;
                true
            },
            _ => false,
        }
    }
}

} // verus!
