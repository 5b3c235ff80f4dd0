//! A lock-coordination engine for a network mutex service.
//!
//! Clients request named exclusive locks identified by string keys and
//! release them; the engine arbitrates so that at most one session holds a
//! given key at a time.  The crate verifies the core logic: the shared lock
//! registry, the release-event notifier, the session identifier allocator,
//! and the per-connection session state machine.  The surrounding transport
//! (sockets, wire encoding, threads) lives outside the library and drives it
//! with plain values.

pub mod laws;
pub mod messages;
pub mod notifier;
pub mod registry;
pub mod server;
pub mod session;

pub use messages::Command;
pub use messages::Response;
pub use notifier::Notifier;
pub use registry::Registry;
pub use server::Server;
pub use session::Session;
