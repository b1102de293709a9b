//! The steps of a connection, from the greeting to the stream of events:
//! each step takes what arrived and says what to do next.

use vstd::prelude::*;
use vstd::string::StringSliceAdditionalSpecFns;
use crate::command::{
    dump_request, heartbeat_period, packet_of, register_request, write_packet, BinlogClient,
    COM_QUERY, MAX_PAYLOAD,
};
use crate::error::BinlogError;
use crate::event::{event_of, tables_after, EventData, EventDataView};
use crate::frame::{frame_body, frame_end, frame_ok, read_frame};
use crate::handshake::{answer_switch, handshake_of, handshake_response, Handshake};
use crate::header::{header_at, EventHeader};
use crate::parser::BinlogParser;
use crate::table_map::TableMapView;
use crate::text::nat_text;

verus! {

/// How far a connection has come.
#[derive(Debug, Clone, Copy, PartialEq, Eq, Structural)]
pub enum ConnectionState {
    /// Nothing has happened yet.
    Disconnected,
    /// The transport is open. `greeted` says whether the server's greeting
    /// was answered already.
    Connecting { greeted: bool },
    /// The server accepted the credentials. `prepared` counts the requests
    /// that it has acknowledged since: the two settings, then the
    /// registration.
    Authenticated { prepared: u8 },
    /// The server accepted the registration, and the dump was requested.
    Registered,
    /// Events arrive.
    Streaming,
    /// The connection failed and cannot be used any more.
    Failed(BinlogError),
}

/// What the caller does next.
#[derive(Debug, Clone, PartialEq, Eq)]
pub enum Action {
    /// Wait for the next packet.
    Receive,
    /// Send these bytes, then wait for the next packet.
    Send(Vec<u8>),
    /// Hand this event on, then wait for the next packet.
    Deliver(EventHeader, EventData),
    /// Give up with this error.
    Stop(BinlogError),
}

/// The mathematical value of an [`Action`].
pub enum ActionView {
    Receive,
    Send(Seq<u8>),
    Deliver(EventHeader, EventDataView),
    Stop(BinlogError),
}

impl View for Action {
    type V = ActionView;

    open spec fn view(&self) -> ActionView {
        match *self {
            Action::Receive => ActionView::Receive,
            Action::Send(bytes) => ActionView::Send(bytes@),
            Action::Deliver(header, data) => ActionView::Deliver(header, data@),
            Action::Stop(e) => ActionView::Stop(e),
        }
    }
}

/// A connection of a replica to a server: its settings, how far it has
/// come, and the decoder of the events that arrive.
pub struct Connection {
    pub client: BinlogClient,
    pub username: Vec<u8>,
    pub password: Vec<u8>,
    pub state: ConnectionState,
    pub parser: BinlogParser,
}

/// A step that fails the connection.
pub open spec fn failing(e: BinlogError) -> (ConnectionState, ActionView) {
    (ConnectionState::Failed(e), ActionView::Stop(e))
}

/// A step that sends `payload` as packet number `sequence` and goes on in
/// the state `next`; a payload too long for a packet fails the
/// connection with a `Protocol` error.
pub open spec fn sending(next: ConnectionState, payload: Seq<u8>, sequence: u8) -> (
    ConnectionState,
    ActionView,
) {
    if payload.len() > MAX_PAYLOAD {
        failing(BinlogError::Protocol)
    } else {
        (next, ActionView::Send(packet_of(payload, sequence)))
    }
}

/// The number of the packet that follows packet number `sequence`.
pub open spec fn following(sequence: u8) -> u8 {
    if sequence == 255 {
        0u8
    } else {
        (sequence + 1) as u8
    }
}

/// The statement that sets the heartbeat period.
pub open spec fn heartbeat_request(secs: u64) -> Seq<u8> {
    seq![COM_QUERY] + "SET @master_heartbeat_period=".spec_bytes() + nat_text(
        heartbeat_period(secs),
    )
}

/// The statement that announces that checksums are understood.
pub open spec fn checksum_request() -> Seq<u8> {
    seq![COM_QUERY] + "SET @master_binlog_checksum= @@global.binlog_checksum".spec_bytes()
}

impl Connection {
    /// The request that starts the dump, for this connection's settings.
    pub open spec fn dump(&self) -> Result<Seq<u8>, BinlogError> {
        dump_request(
            self.client.gtid_enabled,
            vstd::utf8::encode_utf8(self.client.gtid_set@),
            vstd::utf8::encode_utf8(self.client.binlog_filename@),
            self.client.binlog_position,
            self.client.server_id,
        )
    }

    /// What the packet `payload` does to a connection that waits for the
    /// server's greeting: an error packet, which starts with `ff`, fails
    /// it with `Connection`, a malformed greeting with `Protocol`; a
    /// greeting is answered in the packet that follows it.
    pub open spec fn on_greeting(&self, sequence: u8, payload: Seq<u8>) -> (
        ConnectionState,
        ActionView,
    ) {
        if payload.len() > 0 && payload[0] == 0xff {
            failing(BinlogError::Connection)
        } else {
            match handshake_of(payload) {
                None => failing(BinlogError::Protocol),
                Some(h) => sending(
                    ConnectionState::Connecting { greeted: true },
                    handshake_response(
                        h.character_set,
                        self.username@,
                        crate::handshake::token_of(h, self.password@),
                        h.auth_plugin,
                    ),
                    following(sequence),
                ),
            }
        }
    }

    /// What the packet `payload` does to a connection that waits for the
    /// verdict on its credentials: a packet that starts with `00` accepts
    /// them, and the first setting is sent; the packet `01 03` says that
    /// the verdict follows; a request to authenticate with another plugin,
    /// which starts with `fe`, is answered in the packet that follows it;
    /// anything else fails the connection with `Connection`.
    pub open spec fn on_verdict(&self, sequence: u8, payload: Seq<u8>) -> (
        ConnectionState,
        ActionView,
    ) {
        if payload.len() > 0 && payload[0] == 0 {
            sending(ConnectionState::Authenticated { prepared: 0 }, checksum_request(), 0)
        } else if payload == seq![1u8, 3u8] {
            (ConnectionState::Connecting { greeted: true }, ActionView::Receive)
        } else {
            match crate::handshake::switch_answer(payload, self.password@) {
                Some(answer) => sending(
                    ConnectionState::Connecting { greeted: true },
                    answer,
                    following(sequence),
                ),
                None => failing(BinlogError::Connection),
            }
        }
    }

    /// What the packet `payload` does to an authenticated connection of
    /// which `prepared` requests were acknowledged: a packet that starts
    /// with `00` acknowledges one more, and the next request is sent: the
    /// second setting, the registration, and at last the dump request,
    /// with which the connection is registered. A dump request that
    /// cannot be built fails the connection with its error; any other
    /// packet fails it with `Connection`.
    pub open spec fn on_acknowledgement(&self, prepared: u8, payload: Seq<u8>) -> (
        ConnectionState,
        ActionView,
    ) {
        if payload.len() == 0 || payload[0] != 0 {
            failing(BinlogError::Connection)
        } else if prepared == 0 {
            sending(
                ConnectionState::Authenticated { prepared: 1 },
                heartbeat_request(self.client.heartbeat_interval_secs),
                0,
            )
        } else if prepared == 1 {
            sending(
                ConnectionState::Authenticated { prepared: 2 },
                register_request(self.client.server_id),
                0,
            )
        } else {
            match self.dump() {
                Err(e) => failing(e),
                Ok(request) => sending(ConnectionState::Registered, request, 0),
            }
        }
    }

    /// What the packet `payload` does to a connection that has requested
    /// the dump: a packet that starts with `00` holds one event behind
    /// that byte, which is decoded, without its checksum, and handed on;
    /// a packet that starts with `ff` fails the connection with
    /// `Connection`, one that starts with `fe`, the end of the dump, with
    /// `Io`; an empty packet, or one that does not hold exactly one event,
    /// with `Protocol`; an event that does not decode, with its error.
    pub open spec fn on_event(&self, payload: Seq<u8>) -> (ConnectionState, ActionView) {
        if payload.len() == 0 {
            failing(BinlogError::Protocol)
        } else if payload[0] == 0xff {
            failing(BinlogError::Connection)
        } else if payload[0] == 0xfe {
            failing(BinlogError::Io)
        } else if payload[0] != 0 || !frame_ok(payload, 1, self.parser.checksum_length as int)
            || frame_end(payload, 1) != payload.len() {
            failing(BinlogError::Protocol)
        } else {
            match event_of(
                header_at(payload, 1).event_type,
                frame_body(payload, 1, self.parser.checksum_length as int),
                self.parser.tables(),
            ) {
                Err(e) => failing(e),
                Ok(data) => (
                    ConnectionState::Streaming,
                    ActionView::Deliver(header_at(payload, 1), data),
                ),
            }
        }
    }

    /// What a packet does to the connection, by its state. A connection
    /// that has not been opened fails with `Protocol`; one that has failed
    /// stays as it is.
    pub open spec fn on_packet_spec(&self, sequence: u8, payload: Seq<u8>) -> (
        ConnectionState,
        ActionView,
    ) {
        match self.state {
            ConnectionState::Disconnected => failing(BinlogError::Protocol),
            ConnectionState::Connecting { greeted } => if greeted {
                self.on_verdict(sequence, payload)
            } else {
                self.on_greeting(sequence, payload)
            },
            ConnectionState::Authenticated { prepared } => self.on_acknowledgement(
                prepared,
                payload,
            ),
            ConnectionState::Registered => self.on_event(payload),
            ConnectionState::Streaming => self.on_event(payload),
            ConnectionState::Failed(e) => failing(e),
        }
    }

    /// The table maps that are known behind a packet: those behind the
    /// event that it delivers, and otherwise those before it.
    pub open spec fn tables_behind_packet(&self, payload: Seq<u8>) -> Map<u64, TableMapView> {
        if (self.state == ConnectionState::Registered || self.state == ConnectionState::Streaming)
            && self.on_event(payload).0 == ConnectionState::Streaming {
            tables_after(
                header_at(payload, 1).event_type,
                frame_body(payload, 1, self.parser.checksum_length as int),
                self.parser.tables(),
            )
        } else {
            self.parser.tables()
        }
    }
}

impl Connection {
    /// A connection on which nothing has happened yet.
    pub fn new(
        client: BinlogClient,
        username: Vec<u8>,
        password: Vec<u8>,
        checksum_length: usize,
    ) -> (connection: Connection)
        ensures
            connection.client == client,
            connection.username == username,
            connection.password == password,
            connection.state == ConnectionState::Disconnected,
            connection.parser.checksum_length == checksum_length,
            connection.parser.tables() == Map::<u64, TableMapView>::empty(),
    {
        Connection {
            client,
            username,
            password,
            state: ConnectionState::Disconnected,
            parser: BinlogParser::new(checksum_length),
        }
    }

    /// Whether a step left everything but the state as it was.
    pub open spec fn same_settings(&self, before: &Connection) -> bool {
        &&& self.client == before.client
        &&& self.username == before.username
        &&& self.password == before.password
        &&& self.parser.checksum_length == before.parser.checksum_length
    }

    /// Fails the connection with `e`.
    fn fail(&mut self, e: BinlogError) -> (action: Action)
        ensures
            (final(self).state, action@) == failing(e),
            final(self).same_settings(old(self)),
            final(self).parser == old(self).parser,
    {
        self.state = ConnectionState::Failed(e);
        Action::Stop(e)
    }

    /// Wraps `payload` into a packet and goes on in the state `next`.
    fn send(&mut self, next: ConnectionState, payload: &[u8], sequence: u8) -> (action: Action)
        ensures
            (final(self).state, action@) == sending(next, payload@, sequence),
            final(self).same_settings(old(self)),
            final(self).parser == old(self).parser,
    {
        match write_packet(payload, sequence) {
            Ok(packet) => {
                self.state = next;
                Action::Send(packet)
            },
            Err(_) => self.fail(BinlogError::Protocol),
        }
    }

    /// The transport was opened. A connection on which nothing has
    /// happened waits for the server's greeting from now on; a failed one
    /// stays failed; any other fails with `Protocol`.
    pub fn on_open(&mut self) -> (action: Action)
        ensures
            final(self).same_settings(old(self)),
            final(self).parser == old(self).parser,
            (final(self).state, action@) == match old(self).state {
                ConnectionState::Disconnected => (
                    ConnectionState::Connecting { greeted: false },
                    ActionView::Receive,
                ),
                ConnectionState::Failed(e) => failing(e),
                _ => failing(BinlogError::Protocol),
            },
    {
        match self.state {
            ConnectionState::Disconnected => {
                self.state = ConnectionState::Connecting { greeted: false };
                Action::Receive
            },
            ConnectionState::Failed(e) => self.fail(e),
            _ => self.fail(BinlogError::Protocol),
        }
    }

    /// Nothing arrived within the time allowed, not even a heartbeat. The
    /// connection fails with `Timeout`, unless it had failed before.
    pub fn on_timeout(&mut self) -> (action: Action)
        ensures
            final(self).same_settings(old(self)),
            final(self).parser == old(self).parser,
            (final(self).state, action@) == match old(self).state {
                ConnectionState::Failed(e) => failing(e),
                _ => failing(BinlogError::Timeout),
            },
    {
        match self.state {
            ConnectionState::Failed(e) => self.fail(e),
            _ => self.fail(BinlogError::Timeout),
        }
    }

    /// The transport failed. A connection that was never opened fails with
    /// `Connection`, an open one with `Io`; a failed one stays as it is.
    pub fn on_failure(&mut self) -> (action: Action)
        ensures
            final(self).same_settings(old(self)),
            final(self).parser == old(self).parser,
            (final(self).state, action@) == match old(self).state {
                ConnectionState::Failed(e) => failing(e),
                ConnectionState::Disconnected => failing(BinlogError::Connection),
                _ => failing(BinlogError::Io),
            },
    {
        match self.state {
            ConnectionState::Failed(e) => self.fail(e),
            ConnectionState::Disconnected => self.fail(BinlogError::Connection),
            _ => self.fail(BinlogError::Io),
        }
    }

    /// Answers the server's greeting.
    fn greeting(&mut self, sequence: u8, payload: &[u8]) -> (action: Action)
        ensures
            final(self).same_settings(old(self)),
            final(self).parser == old(self).parser,
            (final(self).state, action@) == old(self).on_greeting(sequence, payload@),
    {
        if payload.len() > 0 && payload[0] == 0xff {
            return self.fail(BinlogError::Connection);
        }
        match Handshake::parse(payload) {
            Err(_) => self.fail(BinlogError::Protocol),
            Ok(handshake) => {
                let response: Vec<u8> = handshake.respond(
                    self.username.as_slice(),
                    self.password.as_slice(),
                );
                let next: u8 = if sequence == 255 {
                    0
                } else {
                    sequence + 1
                };
                self.send(ConnectionState::Connecting { greeted: true }, response.as_slice(), next)
            },
        }
    }

    /// Takes the server's verdict on the credentials.
    fn verdict(&mut self, sequence: u8, payload: &[u8]) -> (action: Action)
        ensures
            final(self).same_settings(old(self)),
            final(self).parser == old(self).parser,
            (final(self).state, action@) == old(self).on_verdict(sequence, payload@),
    {
        if payload.len() > 0 && payload[0] == 0 {
            let request: Vec<u8> = self.client.checksum_command();
            self.send(ConnectionState::Authenticated { prepared: 0 }, request.as_slice(), 0)
        } else if payload.len() == 2 && payload[0] == 1 && payload[1] == 3 {
            assert(payload@ =~= seq![1u8, 3u8]);
            self.state = ConnectionState::Connecting { greeted: true };
            Action::Receive
        } else {
            match answer_switch(payload, self.password.as_slice()) {
                Some(answer) => {
                    let next: u8 = if sequence == 255 {
                        0
                    } else {
                        sequence + 1
                    };
                    self.send(
                        ConnectionState::Connecting { greeted: true },
                        answer.as_slice(),
                        next,
                    )
                },
                None => self.fail(BinlogError::Connection),
            }
        }
    }

    /// Takes an acknowledgement and sends the next request.
    fn acknowledgement(&mut self, prepared: u8, payload: &[u8]) -> (action: Action)
        ensures
            final(self).same_settings(old(self)),
            final(self).parser == old(self).parser,
            (final(self).state, action@) == old(self).on_acknowledgement(prepared, payload@),
    {
        if payload.len() == 0 || payload[0] != 0 {
            self.fail(BinlogError::Connection)
        } else if prepared == 0 {
            let request: Vec<u8> = self.client.heartbeat_command();
            self.send(ConnectionState::Authenticated { prepared: 1 }, request.as_slice(), 0)
        } else if prepared == 1 {
            let request: Vec<u8> = self.client.register_command();
            self.send(ConnectionState::Authenticated { prepared: 2 }, request.as_slice(), 0)
        } else {
            match self.client.dump_command() {
                Err(e) => self.fail(e),
                Ok(request) => self.send(ConnectionState::Registered, request.as_slice(), 0),
            }
        }
    }

    /// Decodes the event that a packet of the dump holds.
    fn event(&mut self, payload: &[u8]) -> (action: Action)
        requires
            old(self).state == ConnectionState::Registered || old(self).state
                == ConnectionState::Streaming,
        ensures
            final(self).same_settings(old(self)),
            (final(self).state, action@) == old(self).on_event(payload@),
            final(self).parser.tables() == old(self).tables_behind_packet(payload@),
    {
        if payload.len() == 0 {
            return self.fail(BinlogError::Protocol);
        }
        if payload[0] == 0xff {
            return self.fail(BinlogError::Connection);
        }
        if payload[0] == 0xfe {
            return self.fail(BinlogError::Io);
        }
        if payload[0] != 0 {
            return self.fail(BinlogError::Protocol);
        }
        let frame = match read_frame(payload, 1, self.parser.checksum_length) {
            Ok(frame) => frame,
            Err(_) => {
                return self.fail(BinlogError::Protocol);
            },
        };
        if frame.end != payload.len() {
            return self.fail(BinlogError::Protocol);
        }
        match self.parser.parse(&frame.header, frame.body) {
            Err(e) => self.fail(e),
            Ok(data) => {
                self.state = ConnectionState::Streaming;
                Action::Deliver(frame.header, data)
            },
        }
    }

    /// A packet arrived: number `sequence` of its exchange, with the
    /// payload `payload`. What it does depends on how far the connection
    /// has come: see `on_greeting`, `on_verdict`, `on_acknowledgement` and
    /// `on_event`.
    pub fn on_packet(&mut self, sequence: u8, payload: &[u8]) -> (action: Action)
        ensures
            final(self).same_settings(old(self)),
            (final(self).state, action@) == old(self).on_packet_spec(sequence, payload@),
            final(self).parser.tables() == old(self).tables_behind_packet(payload@),
    {
        match self.state {
            ConnectionState::Disconnected => self.fail(BinlogError::Protocol),
            ConnectionState::Connecting { greeted } => {
                if greeted {
                    self.verdict(sequence, payload)
                } else {
                    self.greeting(sequence, payload)
                }
            },
            ConnectionState::Authenticated { prepared } => self.acknowledgement(prepared, payload),
            ConnectionState::Registered => self.event(payload),
            ConnectionState::Streaming => self.event(payload),
            ConnectionState::Failed(e) => self.fail(e),
        }
    }
}

/// A failed connection stays failed: whatever packet arrives, it stops
/// with the error with which it failed.
pub proof fn lemma_failure_is_final(c: Connection, e: BinlogError, sequence: u8, payload: Seq<u8>)
    requires
        c.state == ConnectionState::Failed(e),
    ensures
        c.on_packet_spec(sequence, payload) == failing(e),
        c.tables_behind_packet(payload) == c.parser.tables(),
{
}

/// Every step leads where the connection may go: a packet takes a
/// connection to the state it is in, to the one that follows it, or to
/// failure, and to nothing else.
pub proof fn lemma_states_follow_each_other(c: Connection, sequence: u8, payload: Seq<u8>)
    ensures
        ({
            let next = c.on_packet_spec(sequence, payload).0;
            match c.state {
                ConnectionState::Disconnected => next is Failed,
                ConnectionState::Connecting { greeted } => next is Failed || next
                    == (ConnectionState::Connecting { greeted: true }) || (greeted && next
                    == ConnectionState::Authenticated { prepared: 0 }),
                ConnectionState::Authenticated { prepared } => next is Failed || (prepared == 0
                    && next == ConnectionState::Authenticated { prepared: 1 }) || (prepared == 1
                    && next == ConnectionState::Authenticated { prepared: 2 }) || (prepared >= 2
                    && next == ConnectionState::Registered),
                ConnectionState::Registered => next is Failed || next == ConnectionState::Streaming,
                ConnectionState::Streaming => next is Failed || next == ConnectionState::Streaming,
                ConnectionState::Failed(e) => next == ConnectionState::Failed(e),
            }
        }),
{
}

} // verus!
