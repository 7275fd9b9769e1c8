//! One client connection, as a state machine: what the server does with
//! each thing that happens on the connection.
//!
//! A client first says whether it is a camera or a dispatcher; until then
//! it may only ask for heartbeats. A camera then reports plates; a
//! dispatcher receives tickets. Either may ask for heartbeats at any time.
use crate::messages::{MessageType, MessageView};
use crate::network::{Camera, Ticket, TicketView};
use vstd::prelude::*;

verus! {

/// Where a connection stands.
#[derive(Debug, PartialEq, Eq, Clone, Copy)]
pub enum SessionState {
    /// The client has not said what it is.
    Unknown,
    /// The client said it is a dispatcher; its id is not yet assigned.
    Joining,
    /// A dispatcher, with the id that the ticket manager gave it.
    Dispatcher(u16),
    /// A camera, with its position.
    Camera(Camera),
    /// The connection is over.
    Closed,
}

/// What happens on a connection.
pub enum SessionEvent {
    /// The heartbeat timer fired.
    HeartbeatDue,
    /// A message arrived.
    Received(MessageType),
    /// Reading a message failed.
    ReadFailed,
    /// The client closed the connection.
    Disconnected,
    /// The ticket manager assigned this dispatcher its id.
    Joined(u16),
    /// A ticket arrived for this dispatcher.
    TicketIssued(Ticket),
}

/// What the server does in answer.
pub enum SessionAction {
    /// Write a message to the client.
    Send(MessageType),
    /// Start a heartbeat with this period in nanoseconds (a heartbeat started
    /// earlier keeps running).
    StartHeartbeat(u64),
    /// Register a dispatcher for these roads with the ticket manager.
    JoinDispatchers(Vec<u16>),
    /// Register a camera's road and the road's speed limit.
    AddCamera(u16, u16),
    /// Report a plate seen on a road, at a mile marker, at a time.
    ReportPlate(String, u16, u16, u32),
    /// Unregister the dispatcher with this id.
    LeaveDispatchers(u16),
    /// Close the writing half of the connection.
    CloseWriter,
    /// Stop the most recent heartbeat.
    StopHeartbeat,
}

pub enum SessionEventView {
    HeartbeatDue,
    Received(MessageView),
    ReadFailed,
    Disconnected,
    Joined(u16),
    TicketIssued(TicketView),
}

pub enum SessionActionView {
    Send(MessageView),
    StartHeartbeat(u64),
    JoinDispatchers(Seq<u16>),
    AddCamera(u16, u16),
    ReportPlate(Seq<char>, u16, u16, u32),
    LeaveDispatchers(u16),
    CloseWriter,
    StopHeartbeat,
}

impl View for SessionEvent {
    type V = SessionEventView;

    open spec fn view(&self) -> SessionEventView {
        match self {
            SessionEvent::HeartbeatDue => SessionEventView::HeartbeatDue,
            SessionEvent::Received(m) => SessionEventView::Received(m@),
            SessionEvent::ReadFailed => SessionEventView::ReadFailed,
            SessionEvent::Disconnected => SessionEventView::Disconnected,
            SessionEvent::Joined(id) => SessionEventView::Joined(*id),
            SessionEvent::TicketIssued(t) => SessionEventView::TicketIssued(t@),
        }
    }
}

impl View for SessionAction {
    type V = SessionActionView;

    open spec fn view(&self) -> SessionActionView {
        match self {
            SessionAction::Send(m) => SessionActionView::Send(m@),
            SessionAction::StartHeartbeat(p) => SessionActionView::StartHeartbeat(*p),
            SessionAction::JoinDispatchers(r) => SessionActionView::JoinDispatchers(r@),
            SessionAction::AddCamera(road, limit) => SessionActionView::AddCamera(*road, *limit),
            SessionAction::ReportPlate(p, road, mile, t) => SessionActionView::ReportPlate(
                p@,
                *road,
                *mile,
                *t,
            ),
            SessionAction::LeaveDispatchers(id) => SessionActionView::LeaveDispatchers(*id),
            SessionAction::CloseWriter => SessionActionView::CloseWriter,
            SessionAction::StopHeartbeat => SessionActionView::StopHeartbeat,
        }
    }
}

/// The heartbeat period asked for by a `WantHeartbeat(i)`: `i` tenths of a
/// second, in nanoseconds.
pub open spec fn heartbeat_period(i: u32) -> u64 {
    (i as int * 100_000_000) as u64
}

/// The events that can happen in a state: none once closed; only the id
/// while joining; tickets only for a dispatcher.
pub open spec fn event_possible(s: SessionState, e: SessionEventView) -> bool {
    match s {
        SessionState::Closed => false,
        SessionState::Joining => e is Joined,
        SessionState::Dispatcher(_) => !(e is Joined),
        _ => !(e is Joined) && !(e is TicketIssued),
    }
}

/// The error text for a message other than an introduction or a heartbeat
/// request from a client that has not introduced itself.
pub open spec fn unknown_client_error() -> Seq<char> {
    "Type must be set before sending other messages"@
}

pub open spec fn dispatcher_error() -> Seq<char> {
    "Invalid message for Dispatcher"@
}

pub open spec fn camera_error() -> Seq<char> {
    "Invalid message for Camera"@
}

/// The next state of a connection and what the server does, for each state
/// and event.
pub open spec fn spec_session_step(s: SessionState, e: SessionEventView) -> (
    SessionState,
    Seq<SessionActionView>,
) {
    match e {
        SessionEventView::HeartbeatDue => (
            s,
            seq![SessionActionView::Send(MessageView::HeartBeat)],
        ),
        SessionEventView::ReadFailed => (s, seq![]),
        SessionEventView::Joined(id) => (SessionState::Dispatcher(id), seq![]),
        SessionEventView::TicketIssued(t) => (
            s,
            seq![SessionActionView::Send(MessageView::Ticket(t))],
        ),
        SessionEventView::Disconnected => match s {
            SessionState::Dispatcher(id) => (
                SessionState::Closed,
                seq![SessionActionView::LeaveDispatchers(id), SessionActionView::StopHeartbeat],
            ),
            SessionState::Camera(_) => (
                SessionState::Closed,
                seq![SessionActionView::CloseWriter, SessionActionView::StopHeartbeat],
            ),
            _ => (SessionState::Closed, seq![SessionActionView::StopHeartbeat]),
        },
        SessionEventView::Received(m) => match m {
            MessageView::WantHeartbeat(i) => (
                s,
                seq![SessionActionView::StartHeartbeat(heartbeat_period(i))],
            ),
            _ => match s {
                SessionState::Unknown => match m {
                    MessageView::IAmDispatcher(roads) => (
                        SessionState::Joining,
                        seq![SessionActionView::JoinDispatchers(roads)],
                    ),
                    MessageView::IAmCamera(c) => (
                        SessionState::Camera(c),
                        seq![SessionActionView::AddCamera(c.road, c.limit)],
                    ),
                    _ => (
                        s,
                        seq![SessionActionView::Send(MessageView::Error(unknown_client_error()))],
                    ),
                },
                SessionState::Camera(c) => match m {
                    MessageView::Plate(p, t) => (
                        s,
                        seq![SessionActionView::ReportPlate(p, c.road, c.mile, t)],
                    ),
                    _ => (s, seq![SessionActionView::Send(MessageView::Error(camera_error()))]),
                },
                _ => (s, seq![SessionActionView::Send(MessageView::Error(dispatcher_error()))]),
            },
        },
    }
}

/// The views of a list of actions.
pub open spec fn actions_view(a: Seq<SessionAction>) -> Seq<SessionActionView> {
    a.map_values(|x: SessionAction| x@)
}

impl SessionState {
    /// A new connection: the client has not said what it is.
    pub fn new() -> (s: Self)
        ensures
            s == SessionState::Unknown,
    {
        SessionState::Unknown
    }

    /// Whether the connection is over.
    pub fn is_closed(&self) -> (r: bool)
        ensures
            r == (*self is Closed),
    {
        matches!(self, SessionState::Closed)
    }

    /// Moves the connection on by one event and says what to do.
    pub fn step(&mut self, event: SessionEvent) -> (actions: Vec<SessionAction>)
        requires
            event_possible(*old(self), event@),
        ensures
            *final(self) == spec_session_step(*old(self), event@).0,
            actions_view(actions@) == spec_session_step(*old(self), event@).1,
    {
        let mut actions: Vec<SessionAction> = Vec::new();
        match event {
            SessionEvent::HeartbeatDue => {
                actions.push(SessionAction::Send(MessageType::HeartBeat));
            },
            SessionEvent::ReadFailed => {},
            SessionEvent::Joined(id) => {
                *self = SessionState::Dispatcher(id);
            },
            SessionEvent::TicketIssued(t) => {
                actions.push(SessionAction::Send(MessageType::Ticket(t)));
            },
            SessionEvent::Disconnected => {
                match *self {
                    SessionState::Dispatcher(id) => {
                        actions.push(SessionAction::LeaveDispatchers(id));
                    },
                    SessionState::Camera(_) => {
                        actions.push(SessionAction::CloseWriter);
                    },
                    _ => {},
                }
                actions.push(SessionAction::StopHeartbeat);
                *self = SessionState::Closed;
            },
            SessionEvent::Received(msg) => {
                match msg {
                    MessageType::WantHeartbeat(i) => {
                        actions.push(SessionAction::StartHeartbeat(i as u64 * 100_000_000));
                    },
                    msg => {
                        match *self {
                            SessionState::Unknown => {
                                match msg {
                                    MessageType::IAmDispatcher(roads) => {
                                        actions.push(SessionAction::JoinDispatchers(roads));
                                        *self = SessionState::Joining;
                                    },
                                    MessageType::IAmCamera(c) => {
                                        actions.push(SessionAction::AddCamera(c.road, c.limit));
                                        *self = SessionState::Camera(c);
                                    },
                                    _ => {
                                        let text = String::from_str(
                                            "Type must be set before sending other messages",
                                        );
                                        actions.push(SessionAction::Send(MessageType::Error(text)));
                                    },
                                }
                            },
                            SessionState::Camera(c) => {
                                match msg {
                                    MessageType::Plate(plate, timestamp) => {
                                        actions.push(
                                            SessionAction::ReportPlate(
                                                plate,
                                                c.road,
                                                c.mile,
                                                timestamp,
                                            ),
                                        );
                                    },
                                    _ => {
                                        let text = String::from_str("Invalid message for Camera");
                                        actions.push(SessionAction::Send(MessageType::Error(text)));
                                    },
                                }
                            },
                            _ => {
                                let text = String::from_str("Invalid message for Dispatcher");
                                actions.push(SessionAction::Send(MessageType::Error(text)));
                            },
                        }
                    },
                }
            },
        }
        proof {
            assert(actions_view(actions@) =~= spec_session_step(*old(self), event@).1);
        }
        actions
    }
}


/// Once a client has said what it is, it stays that until the connection
/// closes: a camera stays the same camera, a dispatcher keeps its id, and a
/// joining dispatcher can only become a dispatcher.
pub proof fn law_client_type_is_kept(s: SessionState, e: SessionEventView)
    requires
        event_possible(s, e),
    ensures
        s is Camera ==> spec_session_step(s, e).0 == s || spec_session_step(s, e).0 is Closed,
        s is Dispatcher ==> spec_session_step(s, e).0 == s || spec_session_step(s, e).0 is Closed,
        s is Joining ==> spec_session_step(s, e).0 is Dispatcher,
        !(s is Unknown) ==> !(spec_session_step(s, e).0 is Unknown),
{
}

/// Every heartbeat tick is answered with exactly one heartbeat message, and
/// a heartbeat request never changes what the client is.
pub proof fn law_heartbeats(s: SessionState, i: u32)
    requires
        !(s is Closed),
        !(s is Joining),
    ensures
        spec_session_step(s, SessionEventView::HeartbeatDue) == (
            s,
            seq![SessionActionView::Send(MessageView::HeartBeat)],
        ),
        spec_session_step(s, SessionEventView::Received(MessageView::WantHeartbeat(i))) == (
            s,
            seq![SessionActionView::StartHeartbeat(heartbeat_period(i))],
        ),
{
}


/// A client that has not said what it is becomes what it says: a dispatcher
/// is registered with the ticket manager for exactly the roads it lists (all
/// of them, in its order) and waits for its id; a camera registers its road
/// with that road's limit and is kept with its position.
pub proof fn law_introduction_registers_what_was_said(roads: Seq<u16>, c: Camera)
    ensures
        spec_session_step(
            SessionState::Unknown,
            SessionEventView::Received(MessageView::IAmDispatcher(roads)),
        ) == (SessionState::Joining, seq![SessionActionView::JoinDispatchers(roads)]),
        spec_session_step(SessionState::Unknown, SessionEventView::Received(MessageView::IAmCamera(c)))
            == (SessionState::Camera(c), seq![SessionActionView::AddCamera(c.road, c.limit)]),
{
}

/// A camera's plate report is passed on once, with the camera's own road and
/// mile and the reported plate and time; the camera stays as it is.
pub proof fn law_camera_reports_plates(c: Camera, plate: Seq<char>, timestamp: u32)
    ensures
        spec_session_step(
            SessionState::Camera(c),
            SessionEventView::Received(MessageView::Plate(plate, timestamp)),
        ) == (
            SessionState::Camera(c),
            seq![SessionActionView::ReportPlate(plate, c.road, c.mile, timestamp)],
        ),
{
}

/// A joining dispatcher becomes the dispatcher with the id it was given,
/// and a dispatcher is sent each ticket issued to it, unchanged.
pub proof fn law_dispatcher_gets_id_and_tickets(id: u16, t: TicketView)
    ensures
        spec_session_step(SessionState::Joining, SessionEventView::Joined(id)) == (
            SessionState::Dispatcher(id),
            Seq::<SessionActionView>::empty(),
        ),
        spec_session_step(SessionState::Dispatcher(id), SessionEventView::TicketIssued(t)) == (
            SessionState::Dispatcher(id),
            seq![SessionActionView::Send(MessageView::Ticket(t))],
        ),
{
}

/// A message that the client may not send in its state (anything but a
/// heartbeat request and an introduction before it has said what it is;
/// anything but a heartbeat request and a plate from a camera; anything but
/// a heartbeat request from a dispatcher) is answered with one error message
/// and changes nothing; a read failure changes nothing and does nothing.
pub proof fn law_wrong_message_is_refused(s: SessionState, m: MessageView)
    requires
        !(m is WantHeartbeat),
        s is Unknown ==> !(m is IAmDispatcher) && !(m is IAmCamera),
        s is Camera ==> !(m is Plate),
        !(s is Closed),
        !(s is Joining),
    ensures
        spec_session_step(s, SessionEventView::Received(m)).0 == s,
        spec_session_step(s, SessionEventView::Received(m)).1.len() == 1,
        spec_session_step(s, SessionEventView::Received(m)).1[0] matches SessionActionView::Send(
            MessageView::Error(text),
        ) && text == (if s is Unknown {
            unknown_client_error()
        } else if s is Camera {
            camera_error()
        } else {
            dispatcher_error()
        }),
        spec_session_step(s, SessionEventView::ReadFailed) == (s, Seq::<SessionActionView>::empty()),
{
}

/// A disconnection closes the connection and always stops the heartbeat,
/// last; a dispatcher is unregistered under its own id first, a camera's
/// writer is closed first, and nothing else is done.
pub proof fn law_disconnect_cleans_up(s: SessionState)
    ensures
        ({
            let (next, a) = spec_session_step(s, SessionEventView::Disconnected);
            &&& next is Closed
            &&& a.len() >= 1
            &&& a.last() == SessionActionView::StopHeartbeat
            &&& (s matches SessionState::Dispatcher(id) ==> a == seq![
                SessionActionView::LeaveDispatchers(id),
                SessionActionView::StopHeartbeat,
            ])
            &&& (s is Camera ==> a == seq![
                SessionActionView::CloseWriter,
                SessionActionView::StopHeartbeat,
            ])
            &&& (!(s is Camera) && !(s is Dispatcher) ==> a == seq![
                SessionActionView::StopHeartbeat,
            ])
        }),
{
}


/// A heartbeat request for `i` deciseconds asks for a period of exactly `i`
/// tenths of a second, in nanoseconds: nothing is cut off.
pub proof fn law_heartbeat_period_is_exact(i: u32)
    ensures
        heartbeat_period(i) as int == i as int * 100_000_000,
{
    assert(0 <= i as int * 100_000_000 <= u64::MAX) by (nonlinear_arith);
}

} // verus!
