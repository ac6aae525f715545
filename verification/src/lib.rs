//! A minimal in-memory key-value server speaking a simple-string /
//! bulk-string / array wire protocol.
//!
//! The crate is organised bottom-up: `wire` gives the mathematical model of
//! the wire grammar, `frame` the executable codec over it, `connection` the
//! receive-buffer layer, `parse` the argument cursor over array frames,
//! `cmd` the typed commands, `db` the key-value store, and `server` the
//! per-request dispatch step.

pub mod wire;

pub mod frame;

pub mod connection;

pub mod parse;

pub mod db;

pub mod cmd;

pub mod server;
