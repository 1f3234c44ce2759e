//! The session task: what happens on the link, and what follows from it.
//!
//! The task owns one connection attempt. Whoever drives it reports what
//! happened (the connection stands, bytes came in, a write failed, a
//! shutdown was asked for) and is told what to publish and what to write.
//! Nothing is retried: a task that has ended stays ended, and a new
//! attempt is a new task.

use crate::codec::{command_frame, decode, decoded, encode};
use crate::command::{Command, CommandView};
use crate::event::{views, EventView, Fault, IoFault, SessionEvent};
use crate::framing::{lines_of, lines_view, remainder_of, FrameBuffer};
use vstd::prelude::*;

verus! {

/// Where a session task stands.
#[derive(Clone, Copy, Debug, PartialEq, Eq, Structural)]
pub enum Phase {
    /// The connection is being opened.
    Connecting,
    /// The connection stands.
    Running,
    /// The task has ended.
    Terminated,
}

/// What can happen to a session task.
#[derive(Debug)]
pub enum Input {
    /// The connection was opened.
    Established,
    /// The connection could not be opened.
    ConnectFailed,
    /// Bytes came in, in the order of the stream.
    Received(Vec<u8>),
    /// Reading failed.
    ReadFailed,
    /// The peer closed the connection.
    EndOfStream,
    /// A command is to be sent.
    Send(Command),
    /// Writing a frame failed.
    WriteFailed,
    /// The session is to end.
    Shutdown,
    /// A liveness probe could not be written.
    HeartbeatFailed,
}

/// An input as contracts speak of it.
pub enum InputView {
    Established,
    ConnectFailed,
    Received(Seq<u8>),
    ReadFailed,
    EndOfStream,
    Send(CommandView),
    WriteFailed,
    Shutdown,
    HeartbeatFailed,
}

impl View for Input {
    type V = InputView;

    open spec fn view(&self) -> InputView {
        match self {
            Input::Established => InputView::Established,
            Input::ConnectFailed => InputView::ConnectFailed,
            Input::Received(chunk) => InputView::Received(chunk@),
            Input::ReadFailed => InputView::ReadFailed,
            Input::EndOfStream => InputView::EndOfStream,
            Input::Send(command) => InputView::Send(command@),
            Input::WriteFailed => InputView::WriteFailed,
            Input::Shutdown => InputView::Shutdown,
            Input::HeartbeatFailed => InputView::HeartbeatFailed,
        }
    }
}

impl Clone for Input {
    fn clone(&self) -> (r: Self)
        ensures
            r@ == self@,
    {
        match self {
            Input::Established => Input::Established,
            Input::ConnectFailed => Input::ConnectFailed,
            Input::Received(chunk) => Input::Received(
                vstd::slice::slice_to_vec(chunk.as_slice()),
            ),
            Input::ReadFailed => Input::ReadFailed,
            Input::EndOfStream => Input::EndOfStream,
            Input::Send(command) => Input::Send(command.clone()),
            Input::WriteFailed => Input::WriteFailed,
            Input::Shutdown => Input::Shutdown,
            Input::HeartbeatFailed => Input::HeartbeatFailed,
        }
    }
}

/// What the task asks for in answer to an input.
#[derive(Debug)]
pub struct Reaction {
    /// The events to publish, in this order.
    pub events: Vec<SessionEvent>,
    /// The frame to write to the socket, as a whole.
    pub frame: Option<Vec<u8>>,
}

/// A reaction as contracts speak of it.
pub struct ReactionView {
    pub events: Seq<EventView>,
    pub frame: Option<Seq<u8>>,
}

impl View for Reaction {
    type V = ReactionView;

    open spec fn view(&self) -> ReactionView {
        ReactionView {
            events: views(self.events@),
            frame: match self.frame {
                Some(frame) => Some(frame@),
                None => None,
            },
        }
    }
}

/// A session task as contracts speak of it: its phase, and the bytes that
/// came in after the last complete frame.
pub struct TaskView {
    pub phase: Phase,
    pub pending: Seq<u8>,
}

/// What is published for the frames that came in: the response of each, up
/// to the first that is no response, for which the session is given up.
pub open spec fn deliver(frames: Seq<Seq<u8>>) -> Seq<EventView>
    decreases frames.len(),
{
    if frames.len() == 0 {
        Seq::empty()
    } else {
        match decoded(frames[0]) {
            Ok(response) => seq![EventView::DataReceived(response)] + deliver(
                frames.subrange(1, frames.len() as int),
            ),
            Err(error) => seq![EventView::Disconnected { reason: Some(Fault::Protocol(error)) }],
        }
    }
}

/// Every frame is a response.
pub open spec fn all_responses(frames: Seq<Seq<u8>>) -> bool {
    forall|i: int| 0 <= i < frames.len() ==> decoded(#[trigger] frames[i]) is Ok
}

/// A task that has not been told anything yet.
pub open spec fn initial() -> TaskView {
    TaskView { phase: Phase::Connecting, pending: Seq::empty() }
}

/// A task that has ended.
pub open spec fn ended() -> TaskView {
    TaskView { phase: Phase::Terminated, pending: Seq::empty() }
}

/// No event, no frame.
pub open spec fn nothing() -> ReactionView {
    ReactionView { events: Seq::empty(), frame: None }
}

/// The end of a running session: one `Disconnected` event.
pub open spec fn stop(reason: Option<Fault>) -> (TaskView, ReactionView) {
    (ended(), ReactionView { events: seq![EventView::Disconnected { reason }], frame: None })
}

/// The rule of the session task: the state after an input, and what is
/// asked for in answer to it.
pub open spec fn react(state: TaskView, input: InputView) -> (TaskView, ReactionView) {
    match state.phase {
        Phase::Connecting => match input {
            InputView::Established => (
                TaskView { phase: Phase::Running, pending: Seq::empty() },
                ReactionView { events: seq![EventView::Connected], frame: None },
            ),
            InputView::ConnectFailed => (ended(), nothing()),
            InputView::Shutdown => (ended(), nothing()),
            _ => (state, nothing()),
        },
        Phase::Running => match input {
            InputView::Received(chunk) => {
                let stream = state.pending + chunk;
                let frames = lines_of(stream);
                let reaction = ReactionView { events: deliver(frames), frame: None };
                if all_responses(frames) {
                    (TaskView { phase: Phase::Running, pending: remainder_of(stream) }, reaction)
                } else {
                    (ended(), reaction)
                }
            },
            InputView::ReadFailed => stop(Some(Fault::Io(IoFault::ReadFailed))),
            InputView::EndOfStream => stop(Some(Fault::Io(IoFault::EndOfStream))),
            InputView::WriteFailed => stop(Some(Fault::Io(IoFault::WriteFailed))),
            InputView::HeartbeatFailed => stop(Some(Fault::Heartbeat)),
            InputView::Shutdown => stop(None),
            InputView::Send(command) => (
                state,
                ReactionView { events: Seq::empty(), frame: Some(command_frame(command)) },
            ),
            _ => (state, nothing()),
        },
        Phase::Terminated => (state, nothing()),
    }
}

/// The state after a run of inputs, and everything that was published on
/// the way.
pub open spec fn run(state: TaskView, inputs: Seq<InputView>) -> (TaskView, Seq<EventView>)
    decreases inputs.len(),
{
    if inputs.len() == 0 {
        (state, Seq::empty())
    } else {
        let (before, trace) = run(state, inputs.drop_last());
        let (after, reaction) = react(before, inputs.last());
        (after, trace + reaction.events)
    }
}

/// Nothing but responses.
pub open spec fn data_only(events: Seq<EventView>) -> bool {
    forall|i: int| 0 <= i < events.len() ==> #[trigger] events[i] is DataReceived
}

/// What the events of one connection attempt look like, for each phase:
/// nothing while connecting; `Connected` and then responses while running;
/// at the end either nothing at all, or `Connected`, responses, and one
/// `Disconnected` that closes the list.
pub open spec fn orderly(phase: Phase, trace: Seq<EventView>) -> bool {
    match phase {
        Phase::Connecting => trace.len() == 0,
        Phase::Running => trace.len() >= 1 && trace[0] is Connected && data_only(
            trace.subrange(1, trace.len() as int),
        ),
        Phase::Terminated => trace.len() == 0 || (trace.len() >= 2 && trace[0] is Connected
            && trace.last() is Disconnected && data_only(trace.subrange(1, trace.len() - 1))),
    }
}

/// What is published for frames is a run of responses, closed by one
/// `Disconnected` exactly when one of the frames is no response.
pub proof fn lemma_deliver_shape(frames: Seq<Seq<u8>>)
    ensures
        all_responses(frames) ==> data_only(deliver(frames)) && deliver(frames).len()
            == frames.len(),
        !all_responses(frames) ==> deliver(frames).len() >= 1 && deliver(frames).last()
            is Disconnected && data_only(deliver(frames).drop_last()),
    decreases frames.len(),
{
    if frames.len() > 0 {
        let rest = frames.subrange(1, frames.len() as int);
        lemma_deliver_shape(rest);
        assert forall|i: int| 0 <= i < rest.len() implies rest[i] == frames[i + 1] by {}
        match decoded(frames[0]) {
            Ok(response) => {
                let first = seq![EventView::DataReceived(response)];
                let events = deliver(frames);
                if all_responses(frames) {
                    assert(all_responses(rest)) by {
                        assert forall|i: int| 0 <= i < rest.len() implies decoded(
                            #[trigger] rest[i],
                        ) is Ok by {
                            assert(rest[i] == frames[i + 1]);
                        }
                    }
                    assert forall|i: int| 0 <= i < events.len() implies #[trigger] events[i]
                        is DataReceived by {
                        if i > 0 {
                            assert(events[i] == deliver(rest)[i - 1]);
                        }
                    }
                } else {
                    assert(!all_responses(rest)) by {
                        if all_responses(rest) {
                            assert forall|i: int| 0 <= i < frames.len() implies decoded(
                                #[trigger] frames[i],
                            ) is Ok by {
                                if i > 0 {
                                    assert(rest[i - 1] == frames[i]);
                                }
                            }
                        }
                    }
                    assert(events.last() == deliver(rest).last());
                    assert forall|i: int| 0 <= i < events.len() - 1 implies #[trigger] events.drop_last()[i]
                        is DataReceived by {
                        if i > 0 {
                            assert(events[i] == deliver(rest).drop_last()[i - 1]);
                        }
                    }
                }
            },
            Err(error) => {
                assert(deliver(frames).drop_last() =~= Seq::<EventView>::empty());
            },
        }
    }
}

/// One step keeps the events of a connection attempt in order.
pub proof fn lemma_react_keeps_order(state: TaskView, trace: Seq<EventView>, input: InputView)
    requires
        orderly(state.phase, trace),
    ensures
        orderly(react(state, input).0.phase, trace + react(state, input).1.events),
{
    let (after, reaction) = react(state, input);
    let grown = trace + reaction.events;
    match state.phase {
        Phase::Connecting => {
            if input is Established {
                assert(grown.subrange(1, grown.len() as int) =~= Seq::<EventView>::empty());
            } else {
                assert(grown =~= trace);
            }
        },
        Phase::Running => {
            let data = trace.subrange(1, trace.len() as int);
            match input {
                InputView::Received(chunk) => {
                    let frames = lines_of(state.pending + chunk);
                    lemma_deliver_shape(frames);
                    let events = deliver(frames);
                    if all_responses(frames) {
                        assert forall|i: int| 0 <= i < grown.len() - 1 implies #[trigger] grown.subrange(
                            1,
                            grown.len() as int,
                        )[i] is DataReceived by {
                            if i < data.len() {
                                assert(grown[i + 1] == data[i]);
                            } else {
                                assert(grown[i + 1] == events[i - data.len()]);
                            }
                        }
                    } else {
                        assert(grown.last() == events.last());
                        assert forall|i: int| 0 <= i < grown.len() - 2 implies #[trigger] grown.subrange(
                            1,
                            grown.len() - 1,
                        )[i] is DataReceived by {
                            if i < data.len() {
                                assert(grown[i + 1] == data[i]);
                            } else {
                                assert(grown[i + 1] == events.drop_last()[i - data.len()]);
                            }
                        }
                    }
                },
                InputView::Send(command) => {
                    assert(grown =~= trace);
                },
                InputView::Established => {
                    assert(grown =~= trace);
                },
                InputView::ConnectFailed => {
                    assert(grown =~= trace);
                },
                _ => {
                    assert(reaction.events.len() == 1);
                    assert(grown.last() == reaction.events[0]);
                    assert(grown.subrange(1, grown.len() - 1) =~= data);
                },
            }
        },
        Phase::Terminated => {
            assert(grown =~= trace);
        },
    }
}

/// Whatever happens to a session task, what it publishes is in order:
/// `Connected` comes once and before everything else, responses follow,
/// and `Disconnected` comes at most once and closes the list. A task that
/// has ended after it was connected has published its `Disconnected`.
pub proof fn lemma_session_is_orderly(inputs: Seq<InputView>)
    ensures
        orderly(run(initial(), inputs).0.phase, run(initial(), inputs).1),
        forall|i: int|
            0 <= i < run(initial(), inputs).1.len() ==> (#[trigger] run(initial(), inputs).1[i]
                is Connected <==> i == 0),
        forall|i: int|
            0 <= i < run(initial(), inputs).1.len() && #[trigger] run(initial(), inputs).1[i]
                is Disconnected ==> i == run(initial(), inputs).1.len() - 1,
    decreases inputs.len(),
{
    if inputs.len() > 0 {
        lemma_session_is_orderly(inputs.drop_last());
        let (before, trace) = run(initial(), inputs.drop_last());
        lemma_react_keeps_order(before, trace, inputs.last());
    }
    let (state, trace) = run(initial(), inputs);
    assert forall|i: int| 0 <= i < trace.len() implies (#[trigger] trace[i] is Connected <==> i
        == 0) by {
        if i > 0 {
            if state.phase == Phase::Running {
                assert(trace.subrange(1, trace.len() as int)[i - 1] is DataReceived);
            } else if i < trace.len() - 1 {
                assert(trace.subrange(1, trace.len() - 1)[i - 1] is DataReceived);
            }
        }
    }
    assert forall|i: int| 0 <= i < trace.len() && #[trigger] trace[i] is Disconnected implies i
        == trace.len() - 1 by {
        if i > 0 {
            if state.phase == Phase::Running {
                assert(trace.subrange(1, trace.len() as int)[i - 1] is DataReceived);
            } else if i < trace.len() - 1 {
                assert(trace.subrange(1, trace.len() - 1)[i - 1] is DataReceived);
            }
        }
    }
}

/// A task that has ended publishes nothing and writes nothing, whatever
/// it is told.
pub proof fn lemma_ended_is_silent(state: TaskView, inputs: Seq<InputView>)
    requires
        state.phase == Phase::Terminated,
    ensures
        run(state, inputs).0 == state,
        run(state, inputs).1 == Seq::<EventView>::empty(),
    decreases inputs.len(),
{
    if inputs.len() > 0 {
        lemma_ended_is_silent(state, inputs.drop_last());
        assert(Seq::<EventView>::empty() + Seq::<EventView>::empty() =~= Seq::<EventView>::empty());
    }
}

/// A liveness probe that cannot be written while the connection stands
/// ends the session with one `Disconnected` event, and nothing is
/// published after it.
pub proof fn lemma_heartbeat_failure_ends_session(state: TaskView, later: Seq<InputView>)
    requires
        state.phase == Phase::Running,
    ensures
        react(state, InputView::HeartbeatFailed).1.events == seq![
            EventView::Disconnected { reason: Some(Fault::Heartbeat) },
        ],
        run(react(state, InputView::HeartbeatFailed).0, later).1 == Seq::<EventView>::empty(),
{
    lemma_ended_is_silent(react(state, InputView::HeartbeatFailed).0, later);
}

/// The session task.
#[derive(Debug)]
pub struct SessionTask {
    phase: Phase,
    inbound: FrameBuffer,
}

impl View for SessionTask {
    type V = TaskView;

    closed spec fn view(&self) -> TaskView {
        TaskView { phase: self.phase, pending: self.inbound@ }
    }
}

impl SessionTask {
    /// A task for one connection attempt, which is about to be made.
    pub fn new() -> (task: SessionTask)
        ensures
            task@ == initial(),
    {
        SessionTask { phase: Phase::Connecting, inbound: FrameBuffer::new() }
    }

    /// Where the task stands.
    pub fn phase(&self) -> (phase: Phase)
        ensures
            phase == self@.phase,
    {
        self.phase
    }

    /// Whether the task has ended.
    pub fn is_finished(&self) -> (finished: bool)
        ensures
            finished == (self@.phase == Phase::Terminated),
    {
        self.phase == Phase::Terminated
    }

    /// Ends a running session.
    fn finish(&mut self, reason: Option<Fault>) -> (reaction: Reaction)
        ensures
            (final(self)@, reaction@) == stop(reason),
    {
        self.phase = Phase::Terminated;
        self.inbound = FrameBuffer::new();
        let mut events: Vec<SessionEvent> = Vec::new();
        events.push(SessionEvent::Disconnected { reason });
        let reaction = Reaction { events, frame: None };
        assert(reaction@.events =~= seq![EventView::Disconnected { reason }]);
        reaction
    }

    /// The reaction that asks for nothing.
    fn idle(&self) -> (reaction: Reaction)
        ensures
            reaction@ == nothing(),
    {
        let reaction = Reaction { events: Vec::new(), frame: None };
        assert(reaction@.events =~= Seq::<EventView>::empty());
        reaction
    }

    /// Takes the bytes that came in while the connection stands.
    fn receive(&mut self, chunk: &[u8]) -> (reaction: Reaction)
        requires
            old(self)@.phase == Phase::Running,
        ensures
            (final(self)@, reaction@) == react(old(self)@, InputView::Received(chunk@)),
    {
        let ghost stream = self@.pending + chunk@;
        let frames = self.inbound.push(chunk);
        let ghost lines = lines_view(frames@);
        let mut events: Vec<SessionEvent> = Vec::new();
        let mut i: usize = 0;
        assert(views(events@) =~= Seq::<EventView>::empty());
        assert(lines.subrange(0, lines.len() as int) =~= lines);
        while i < frames.len()
            invariant
                i <= frames@.len(),
                lines == lines_view(frames@),
                old(self)@.phase == Phase::Running,
                stream == old(self)@.pending + chunk@,
                lines == lines_of(stream),
                self.inbound@ == remainder_of(stream),
                self.phase == Phase::Running,
                forall|k: int| 0 <= k < i ==> decoded(#[trigger] lines[k]) is Ok,
                views(events@) + deliver(lines.subrange(i as int, lines.len() as int)) == deliver(
                    lines,
                ),
            decreases frames@.len() - i,
        {
            let ghost before = views(events@);
            let ghost rest = lines.subrange(i as int, lines.len() as int);
            assert(rest[0] == lines[i as int]);
            assert(rest.subrange(1, rest.len() as int) =~= lines.subrange(i + 1, lines.len() as int));
            match decode(frames[i].as_slice()) {
                Ok(response) => {
                    events.push(SessionEvent::DataReceived(response));
                    proof {
                        let data = EventView::DataReceived(response@);
                        assert(views(events@) =~= before.push(data));
                        assert(before + (seq![data] + deliver(
                            lines.subrange(i + 1, lines.len() as int),
                        )) =~= before.push(data) + deliver(
                            lines.subrange(i + 1, lines.len() as int),
                        ));
                    }
                },
                Err(error) => {
                    let reason = Some(Fault::Protocol(error));
                    events.push(SessionEvent::Disconnected { reason });
                    proof {
                        let closing = EventView::Disconnected { reason };
                        assert(views(events@) =~= before.push(closing));
                        assert(before + seq![closing] =~= before.push(closing));
                        assert(decoded(lines[i as int]) is Err);
                        assert(deliver(rest) =~= seq![closing]);
                        assert(views(events@) == deliver(lines));
                        assert(!all_responses(lines));
                    }
                    self.phase = Phase::Terminated;
                    self.inbound = FrameBuffer::new();
                    return Reaction { events, frame: None };
                },
            }
            i = i + 1;
        }
        proof {
            assert(lines.subrange(i as int, lines.len() as int) =~= Seq::<Seq<u8>>::empty());
            assert(views(events@) + Seq::<EventView>::empty() =~= views(events@));
        }
        Reaction { events, frame: None }
    }

    /// Tells the task what happened, and learns what to publish and what to
    /// write.
    pub fn step(&mut self, input: Input) -> (reaction: Reaction)
        ensures
            (final(self)@, reaction@) == react(old(self)@, input@),
    {
        match self.phase {
            Phase::Connecting => match input {
                Input::Established => {
                    self.phase = Phase::Running;
                    self.inbound = FrameBuffer::new();
                    let mut events: Vec<SessionEvent> = Vec::new();
                    events.push(SessionEvent::Connected);
                    let reaction = Reaction { events, frame: None };
                    assert(reaction@.events =~= seq![EventView::Connected]);
                    reaction
                },
                Input::ConnectFailed => {
                    self.phase = Phase::Terminated;
                    self.inbound = FrameBuffer::new();
                    self.idle()
                },
                Input::Shutdown => {
                    self.phase = Phase::Terminated;
                    self.inbound = FrameBuffer::new();
                    self.idle()
                },
                _ => self.idle(),
            },
            Phase::Running => match input {
                Input::Received(chunk) => self.receive(chunk.as_slice()),
                Input::ReadFailed => self.finish(Some(Fault::Io(IoFault::ReadFailed))),
                Input::EndOfStream => self.finish(Some(Fault::Io(IoFault::EndOfStream))),
                Input::WriteFailed => self.finish(Some(Fault::Io(IoFault::WriteFailed))),
                Input::HeartbeatFailed => self.finish(Some(Fault::Heartbeat)),
                Input::Shutdown => self.finish(None),
                Input::Send(command) => {
                    let frame = encode(&command);
                    let reaction = Reaction { events: Vec::new(), frame: Some(frame) };
                    assert(reaction@.events =~= Seq::<EventView>::empty());
                    reaction
                },
                _ => self.idle(),
            },
            Phase::Terminated => self.idle(),
        }
    }
}

} // verus!
