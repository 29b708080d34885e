//! Reliability and session layer for a client/server real-time protocol
//! running over an unreliable datagram transport.
//!
//! The heart of the crate is the [`filter::Filter`] engine: it owns one
//! [`session::Session`] per remote endpoint, classifies inbound packets as
//! new, duplicate or out of order, reconciles acknowledgments against the
//! retransmission set, drives the connection handshake, and retransmits
//! unacknowledged packets until a bounded retry budget is exhausted.
//!
//! The engine is a pure state machine: every transition takes the current
//! time and a single command or notification, and returns the transport
//! commands and application notices it produced. The [`channel`] module
//! supplies the bounded queues those messages travel through; timers and
//! sockets live with the caller, which keeps the whole protocol core
//! verifiable.
//!
//! The [`ui`] module holds the small event vocabulary of the game client
//! that embeds this layer: event classification and the actions a widget
//! can request. Rendering and input plumbing are not this crate's concern.

pub mod channel;
pub mod filter;
pub mod protocol;
pub mod session;
pub mod ui;
