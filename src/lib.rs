//! A single-threaded, readiness-driven transport for request/response
//! messages over a local byte-stream socket.
//!
//! The library holds the decisions: which events a connection waits for,
//! what happens to its buffers on each readiness event, and how live
//! connections are kept under their tokens. The program around it owns the
//! sockets, the readiness primitive and the request handler, performs what
//! the library asks for, and hands back what happened.

pub mod connection;
pub mod interest;
pub mod server;
pub mod slots;

pub use connection::{Connection, Phase, ReadOutcome, Step, WriteOutcome};
pub use interest::{Interest, OneShotRegistration};
pub use server::{Action, Dispatch, Route, RpcServer};
pub use slots::{ConnectionTable, LISTENER};
