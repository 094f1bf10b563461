//! One proxied connection, from the first client byte to the splice.
//!
//! The caller owns the sockets and the clock. It tells the connection what
//! happened, and the connection tells it what to do next.

use crate::error::{Error, IoKind};
use crate::inspection::{
    inspect_stream, inspection, lemma_closed_inspection_is_definite,
};
use crate::mapping::HostMapping;
use crate::stream::MemoryStream;
use vstd::prelude::*;

verus! {

/// The port on which every upstream is dialed.
pub const UPSTREAM_PORT: u16 = 443;

/// The seconds that a client has, from accept, to show its host name.
pub const INSPECTION_TIMEOUT_SECS: u64 = 5;

/// Where a connection stands.
#[derive(Clone, Copy, Debug, PartialEq, Eq, Structural)]
pub enum Phase {
    /// The host name is not known yet; client bytes are being gathered.
    Inspecting,
    /// The upstream for the host name is being dialed.
    Dialing,
    /// Client and upstream are joined; nothing is left to decide.
    Splicing,
    /// The connection was given up.
    Closed,
}

/// What the caller reports.
#[derive(Debug, PartialEq, Eq)]
pub enum Event {
    /// The client sent these bytes.
    ClientData(Vec<u8>),
    /// The client closed its side.
    ClientClosed,
    /// Reading from the client failed.
    ClientFailed(IoKind),
    /// The inspection deadline passed.
    DeadlineExpired,
    /// The upstream accepted the connection.
    UpstreamConnected,
    /// The upstream could not be reached.
    UpstreamFailed,
}

/// What the caller is to do next.
#[derive(Debug, PartialEq, Eq)]
pub enum Action {
    /// Read from the client, no longer than the inspection deadline allows,
    /// and report what came.
    ReadClient,
    /// Connect to `host` at `port` and report how it went.
    Dial { host: String, port: u16 },
    /// Send `prefix` to the upstream, then all that the client sends from
    /// now on, in that order; send the client all that the upstream sends.
    Splice { prefix: Vec<u8> },
    /// Close the connection; `error` says why.
    Close { error: Error },
}

/// An action as contracts see it.
pub ghost enum Step {
    ReadClient,
    Dial { host: Seq<char>, port: u16 },
    Splice { prefix: Seq<u8> },
    Close { error: Error },
}

impl View for Action {
    type V = Step;

    open spec fn view(&self) -> Step {
        match *self {
            Action::ReadClient => Step::ReadClient,
            Action::Dial { host, port } => Step::Dial { host: host@, port },
            Action::Splice { prefix } => Step::Splice { prefix: prefix@ },
            Action::Close { error } => Step::Close { error },
        }
    }
}

/// A connection as contracts see it.
pub ghost struct ConnectionView {
    /// Where the connection stands.
    pub phase: Phase,
    /// The client bytes that the connection holds: all that the client has
    /// sent, until they are handed to the splice.
    pub buffered: Seq<u8>,
    /// The host name that the client asked for, once it is known.
    pub host_name: Option<Seq<char>>,
}

/// A connection after an event, and the action that answers the event.
pub ghost struct Outcome {
    pub conn: ConnectionView,
    pub step: Step,
}

/// The outcome of giving up with `error`.
pub open spec fn closing(conn: ConnectionView, error: Error) -> Outcome {
    Outcome { conn: ConnectionView { phase: Phase::Closed, ..conn }, step: Step::Close { error } }
}

/// The outcome of an inspection of the bytes that `conn` holds: read on
/// while the host name is not yet known, dial the upstream that it is
/// mapped to, or give up with the error found, or with `UnknownHost` where
/// the name is not mapped.
pub open spec fn inspected(
    conn: ConnectionView,
    closed: bool,
    mapping: Map<Seq<char>, Seq<char>>,
) -> Outcome {
    match inspection(conn.buffered, closed) {
        Ok(name) => {
            let named = ConnectionView { host_name: Some(name), ..conn };
            if mapping.contains_key(name) {
                Outcome {
                    conn: ConnectionView { phase: Phase::Dialing, ..named },
                    step: Step::Dial { host: mapping[name], port: UPSTREAM_PORT },
                }
            } else {
                closing(named, Error::UnknownHost)
            }
        },
        Err(e) => if e == Error::IoError(IoKind::WouldBlock) {
            Outcome { conn, step: Step::ReadClient }
        } else {
            closing(conn, e)
        },
    }
}

/// The rules of a connection: what follows from `event` for `conn`. An
/// event that the phase has no use for closes the connection.
pub open spec fn transition(
    conn: ConnectionView,
    mapping: Map<Seq<char>, Seq<char>>,
    event: Event,
) -> Outcome {
    match (conn.phase, event) {
        (Phase::Inspecting, Event::ClientData(chunk)) => inspected(
            ConnectionView { buffered: conn.buffered + chunk@, ..conn },
            false,
            mapping,
        ),
        (Phase::Inspecting, Event::ClientClosed) => inspected(conn, true, mapping),
        (Phase::Inspecting, Event::ClientFailed(kind)) => closing(conn, Error::IoError(kind)),
        (Phase::Inspecting, Event::DeadlineExpired) => closing(conn, Error::InspectionTimeout),
        (Phase::Dialing, Event::UpstreamConnected) => Outcome {
            conn: ConnectionView { phase: Phase::Splicing, buffered: Seq::empty(), ..conn },
            step: Step::Splice { prefix: conn.buffered },
        },
        (Phase::Dialing, Event::UpstreamFailed) => closing(conn, Error::UpstreamDialFailed),
        _ => closing(conn, Error::IoError(IoKind::Other)),
    }
}

/// A connection that was just accepted.
pub open spec fn accepted() -> ConnectionView {
    ConnectionView { phase: Phase::Inspecting, buffered: Seq::empty(), host_name: None }
}

/// The decisions of one proxied connection.
pub struct Connection {
    phase: Phase,
    buffered: Vec<u8>,
    host_name: Option<String>,
}

impl View for Connection {
    type V = ConnectionView;

    closed spec fn view(&self) -> ConnectionView {
        ConnectionView {
            phase: self.phase,
            buffered: self.buffered@,
            host_name: match self.host_name {
                Some(name) => Some(name@),
                None => None,
            },
        }
    }
}

impl Connection {
    /// A connection that was just accepted. Its first action is to read
    /// from the client.
    pub fn new() -> (conn: Self)
        ensures
            conn@ == accepted(),
    {
        Connection { phase: Phase::Inspecting, buffered: Vec::new(), host_name: None }
    }

    /// Where the connection stands.
    pub fn phase(&self) -> (phase: Phase)
        ensures
            phase == self@.phase,
    {
        self.phase
    }

    /// The host name that the client asked for, once it is known.
    pub fn host_name(&self) -> (name: Option<&String>)
        ensures
            match name {
                Some(text) => self@.host_name == Some(text@),
                None => self@.host_name is None,
            },
    {
        self.host_name.as_ref()
    }

    /// Takes note of `event` and says what to do next, as `transition` rules.
    pub fn handle(&mut self, mapping: &HostMapping, event: Event) -> (action: Action)
        ensures
            transition(old(self)@, mapping@, event) == (Outcome { conn: final(self)@, step: action@ }),
    {
        match self.phase {
            Phase::Inspecting => match event {
                Event::ClientData(chunk) => {
                    self.buffered.extend_from_slice(chunk.as_slice());
                    proof {
                        assert(self.buffered@ == old(self).buffered@ + chunk@);
                    }
                    self.inspect(mapping, false)
                },
                Event::ClientClosed => self.inspect(mapping, true),
                Event::ClientFailed(kind) => self.close(Error::IoError(kind)),
                Event::DeadlineExpired => self.close(Error::InspectionTimeout),
                _ => self.close(Error::IoError(IoKind::Other)),
            },
            Phase::Dialing => match event {
                Event::UpstreamConnected => {
                    let mut prefix: Vec<u8> = Vec::new();
                    prefix.append(&mut self.buffered);
                    self.phase = Phase::Splicing;
                    proof {
                        assert(prefix@ =~= old(self).buffered@);
                    }
                    Action::Splice { prefix }
                },
                Event::UpstreamFailed => self.close(Error::UpstreamDialFailed),
                _ => self.close(Error::IoError(IoKind::Other)),
            },
            _ => self.close(Error::IoError(IoKind::Other)),
        }
    }

    /// Gives the connection up.
    fn close(&mut self, error: Error) -> (action: Action)
        ensures
            closing(old(self)@, error) == (Outcome { conn: final(self)@, step: action@ }),
    {
        self.phase = Phase::Closed;
        Action::Close { error }
    }

    /// Inspects the bytes held, as a client stream that has ended for good
    /// or for now, and decides on the result. The bytes are put together
    /// again from the tape of the inspection and what it left unread.
    fn inspect(&mut self, mapping: &HostMapping, closed: bool) -> (action: Action)
        requires
            old(self).phase == Phase::Inspecting,
        ensures
            inspected(old(self)@, closed, mapping@) == (Outcome { conn: final(self)@, step: action@ }),
    {
        let mut received: Vec<u8> = Vec::new();
        received.append(&mut self.buffered);
        let ending = if closed {
            None
        } else {
            Some(Error::IoError(IoKind::WouldBlock))
        };
        let client = MemoryStream::new(received, ending);
        let (found, client, tape) = inspect_stream(client);
        let mut unread = client.unread();
        self.buffered = tape;
        self.buffered.append(&mut unread);
        proof {
            assert(old(self).buffered@ =~= Seq::<u8>::empty() + old(self).buffered@);
        }
        match found {
            Ok(name) => {
                let action = match mapping.get(&name) {
                    Some(upstream) => {
                        self.phase = Phase::Dialing;
                        Action::Dial { host: upstream.clone(), port: UPSTREAM_PORT }
                    },
                    None => {
                        self.phase = Phase::Closed;
                        Action::Close { error: Error::UnknownHost }
                    },
                };
                self.host_name = Some(name);
                action
            },
            Err(Error::IoError(IoKind::WouldBlock)) => Action::ReadClient,
            Err(e) => self.close(e),
        }
    }
}

/// The bytes that the client sent in the course of `events`, in order.
pub open spec fn client_bytes(events: Seq<Event>) -> Seq<u8>
    decreases events.len(),
{
    if events.len() == 0 {
        Seq::empty()
    } else {
        match events.last() {
            Event::ClientData(chunk) => client_bytes(events.drop_last()) + chunk@,
            _ => client_bytes(events.drop_last()),
        }
    }
}

/// A connection that was accepted and then met `events` in turn, with the
/// action that answered the last of them.
pub open spec fn outcome_after(mapping: Map<Seq<char>, Seq<char>>, events: Seq<Event>) -> Outcome
    decreases events.len(),
{
    if events.len() == 0 {
        Outcome { conn: accepted(), step: Step::ReadClient }
    } else {
        transition(outcome_after(mapping, events.drop_last()).conn, mapping, events.last())
    }
}

/// Splice transparency: whatever happened before, the prefix that a splice
/// sends ahead of the live client stream is all that the client has sent
/// until then, byte for byte. So the upstream, which gets the prefix and then
/// the rest of the client stream, gets the client stream.
pub proof fn lemma_splice_sends_client_stream(
    mapping: Map<Seq<char>, Seq<char>>,
    events: Seq<Event>,
)
    ensures
        outcome_after(mapping, events).step matches Step::Splice { prefix } ==> prefix
            == client_bytes(events),
        outcome_after(mapping, events).conn.phase is Inspecting || outcome_after(
            mapping,
            events,
        ).conn.phase is Dialing ==> outcome_after(mapping, events).conn.buffered == client_bytes(
            events,
        ),
    decreases events.len(),
{
    if events.len() > 0 {
        lemma_splice_sends_client_stream(mapping, events.drop_last());
    }
}

/// A client that has closed its stream is not waited for: the connection
/// dials or gives up, and never asks for another read.
pub proof fn lemma_closed_client_is_decided(
    conn: ConnectionView,
    mapping: Map<Seq<char>, Seq<char>>,
)
    ensures
        transition(conn, mapping, Event::ClientClosed).step != Step::ReadClient,
        transition(conn, mapping, Event::ClientClosed).conn.phase != Phase::Inspecting,
{
    lemma_closed_inspection_is_definite(conn.buffered);
}

} // verus!
