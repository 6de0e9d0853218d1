use vstd::prelude::*;

pub mod frame;
pub mod parse;
pub mod cmd;
pub mod db;
pub mod connection;
pub mod pubsub;
pub mod server;
pub mod client;
pub mod cli;

pub use client::{Client, Message, Subscriber};
pub use cmd::Command;
pub use connection::FrameReader;
pub use frame::Frame;

verus! {

/// The port the server listens on unless told otherwise.
pub const DEFAULT_PORT: u16 = 6379;

} // verus!
