//! Verified core of a small TCP connection manager.
//!
//! Every accepted connection is served by a reader, which turns what the
//! socket delivers into lifecycle and frame events, and by a writer, which
//! puts queued frames on the socket in the order they were queued. A single
//! dispatcher receives the events of all connections and decides what to do
//! with each.
//!
//! This crate holds what those three workers decide, as state machines with
//! proved contracts, and the laws that follow for the streams they produce.
//! The workers here never block: the program that drives them owns the
//! sockets and the threads, performs each read, write and wait, and reports
//! what came of it.

pub mod client;
pub mod dispatcher;
pub mod event;
pub mod frame;
pub mod pipeline;
pub mod reader;
pub mod schedule;
pub mod writer;

pub use client::Client;
pub use dispatcher::dispatch;
pub use dispatcher::Reaction;
pub use event::Event;
pub use frame::READ_BUFFER_SIZE;
pub use reader::ReadOutcome;
pub use reader::Reader;
pub use writer::Writer;
