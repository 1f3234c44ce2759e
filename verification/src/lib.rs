//! A client session manager for a newline-delimited control protocol.
//!
//! The crate holds the rules of the session: how commands and responses are
//! written as frames, how a byte stream is cut into frames, what the session
//! task publishes for each thing that happens on the link, and how observers
//! follow along. Sockets, timers and tasks stay with the caller, who feeds
//! the state machines here and carries out what they answer.
//!
//! - [`command`], [`response`], [`number`]: what travels.
//! - [`codec`], with [`wire`] and [`object`] below it: frames and their
//!   grammar. Decoding is proved to be the inverse of encoding.
//! - [`framing`]: from chunks of bytes to frames.
//! - [`session`]: the session task as a state machine, with the order of
//!   its events proved for every run.
//! - [`heartbeat`]: when a liveness probe is due, and when to give up.
//! - [`relay`]: the one queue through which everything is written.
//! - [`event`], [`bus`]: what observers are told, and the lossy broadcast
//!   that tells them.
//! - [`manager`]: the three calls of the presentation layer, and the state
//!   it sees.

pub mod bus;
pub mod codec;
pub mod command;
pub mod event;
pub mod framing;
pub mod heartbeat;
pub mod manager;
pub mod number;
pub mod object;
pub mod relay;
pub mod response;
pub mod session;
pub mod wire;
