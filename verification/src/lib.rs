//! A JSON-RPC 2.0 bridge between a single-threaded, poll-only host and
//! concurrent TCP clients: wire-protocol encoding and decoding, a server
//! dispatch core (one global FIFO call queue plus a topic-based
//! subscription registry), and a client correlation core (outstanding-call
//! table, monotonic ID allocation, response demultiplexing).

pub mod client;
pub mod error;
pub mod identifier;
pub mod json;
pub mod protocol;
pub mod server;
pub mod tasks;
