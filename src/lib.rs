//! Transport and runtime for UI plugins that run in processes of their own.
//!
//! A plugin talks to the host over a local stream, one length-prefixed frame
//! per message. This crate holds the parts of that exchange that decide
//! something: the wire codec, the frame reader, the registry of live plugins,
//! the allocator of plugin ids and the per-connection exchange state machine.

pub mod codec;
pub mod connection;
pub mod message;
pub mod runtime;
pub mod exchange;
pub mod widgets;

pub use connection::{FrameReader, Received, TransportError};
pub use message::{PluginEvent, PluginRequest};
pub use runtime::{Plugin, PluginRuntime, RuntimeMessage};
