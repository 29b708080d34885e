//! Wire-level protocol data: the packet envelope exchanged between peers and
//! the application-defined request/response payloads it carries.
//!
//! These are plain value types. Serialization is the transport's concern;
//! inside this crate a packet is already-decoded structured data.

use vstd::prelude::*;

verus! {

/// Identity of one remote peer, as the transport layer names it.
///
/// The transport maps whatever addressing it uses (socket addresses, lanes,
/// test fixtures) onto these opaque identifiers before handing packets up.
#[derive(Clone, Copy, Debug, PartialEq, Eq, Hash, Structural)]
pub struct Endpoint(pub u64);

/// Application-level request payload, sent by the requesting side.
#[derive(Debug, PartialEq)]
pub enum RequestAction {
    /// Opens the handshake. The server checks `client_version` against its
    /// compatibility policy before admitting the peer.
    Connect { name: String, client_version: String },
    /// Orderly goodbye from the peer.
    Disconnect,
    /// Heartbeat; carries the highest response sequence the sender has
    /// fully processed, so the responder can evict acknowledged packets.
    KeepAlive { latest_response_ack: u64 },
    /// A chat line for the room the peer is in.
    ChatMessage { message: String },
    /// Ask to join the named room.
    JoinRoom { room_name: String },
    /// Leave the current room.
    LeaveRoom,
    /// Ask for the player roster.
    ListPlayers,
}

/// Application-level response payload, sent by the responding side.
#[derive(Debug, PartialEq)]
pub enum ResponseCode {
    /// The request was carried out.
    Accepted,
    /// Handshake success: the session cookie the peer must present on every
    /// later request, and the server's own version string.
    LoggedIn { cookie: String, server_version: String },
    /// The request's cookie was missing or did not match the session.
    Unauthorized,
    /// The peer's `Connect` named a client version the server refuses.
    IncompatibleVersion,
}

/// The wire envelope. Each direction keeps its own monotonically increasing
/// sequence counter; an acknowledgment for the opposite direction's counter
/// rides piggy-backed on every envelope.
#[derive(Debug, PartialEq)]
pub enum Packet {
    Request {
        /// The requester's counter: up by exactly one per new request;
        /// retransmissions reuse the original value.
        sequence: u64,
        /// Highest response sequence the requester has fully processed.
        response_ack: Option<u64>,
        /// Session token proving the handshake succeeded; `None` only
        /// before login.
        cookie: Option<String>,
        action: RequestAction,
    },
    Response {
        /// The responder's counter, symmetric to the requester's.
        sequence: u64,
        /// Highest request sequence the responder has fully processed.
        request_ack: Option<u64>,
        code: ResponseCode,
    },
}

impl Clone for RequestAction {
    fn clone(&self) -> (r: Self)
        ensures
            r == *self,
    {
        match self {
            RequestAction::Connect { name, client_version } => RequestAction::Connect {
                name: name.clone(),
                client_version: client_version.clone(),
            },
            RequestAction::Disconnect => RequestAction::Disconnect,
            RequestAction::KeepAlive { latest_response_ack } => RequestAction::KeepAlive {
                latest_response_ack: *latest_response_ack,
            },
            RequestAction::ChatMessage { message } => RequestAction::ChatMessage {
                message: message.clone(),
            },
            RequestAction::JoinRoom { room_name } => RequestAction::JoinRoom {
                room_name: room_name.clone(),
            },
            RequestAction::LeaveRoom => RequestAction::LeaveRoom,
            RequestAction::ListPlayers => RequestAction::ListPlayers,
        }
    }
}

impl Clone for ResponseCode {
    fn clone(&self) -> (r: Self)
        ensures
            r == *self,
    {
        match self {
            ResponseCode::Accepted => ResponseCode::Accepted,
            ResponseCode::LoggedIn { cookie, server_version } => ResponseCode::LoggedIn {
                cookie: cookie.clone(),
                server_version: server_version.clone(),
            },
            ResponseCode::Unauthorized => ResponseCode::Unauthorized,
            ResponseCode::IncompatibleVersion => ResponseCode::IncompatibleVersion,
        }
    }
}

impl Clone for Packet {
    fn clone(&self) -> (r: Self)
        ensures
            r == *self,
    {
        match self {
            Packet::Request { sequence, response_ack, cookie, action } => Packet::Request {
                sequence: *sequence,
                response_ack: *response_ack,
                cookie: match cookie {
                    Some(c) => Some(c.clone()),
                    None => None,
                },
                action: action.clone(),
            },
            Packet::Response { sequence, request_ack, code } => Packet::Response {
                sequence: *sequence,
                request_ack: *request_ack,
                code: code.clone(),
            },
        }
    }
}

/// The sequence number stamped on a packet, whichever direction it travels.
pub open spec fn packet_sequence(p: Packet) -> u64 {
    match p {
        Packet::Request { sequence, .. } => sequence,
        Packet::Response { sequence, .. } => sequence,
    }
}

} // verus!
