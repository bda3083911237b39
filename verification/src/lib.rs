//! An in-memory key/value database core: the store, the command engine,
//! the per-connection session state machine and the persistence rules.
//!
//! Every function here works on plain values. Sockets, files, threads and
//! the clock belong to the program built around this library: it hands in
//! lines, instants and file contents, and carries out what comes back.
//!
//! - [`text`]: tokens, keywords and decimal numbers;
//! - [`db`]: instants, entries and the store;
//! - [`server`]: commands, replies, batches and sessions;
//! - [`persistence`]: snapshot image, log replay and the log writer.

pub mod db;
pub mod persistence;
pub mod server;
pub mod text;
