//! The message shapes of the protocol, as plain values.
//!
//! Each request and response travels as one self-describing record on the
//! wire; the transport layer outside this crate frames and encodes them and
//! hands the library these plain values.

use vstd::prelude::*;

verus! {

/// A client request, tagged by command.
#[derive(Debug, Clone, PartialEq, Eq)]
pub enum Command {
    /// Acquire an exclusive hold on `id`; an absent `timeout_ms` means
    /// wait indefinitely.
    Lock { id: String, timeout_ms: Option<u64> },
    /// Query whether `id` is currently locked.
    Check { id: String },
    /// Release a key held by this connection.
    Release { id: String },
}

/// A server reply, tagged like the request that prompted it.
#[derive(Debug, Clone, PartialEq, Eq)]
pub enum Response {
    /// `success` means the key is now held by this connection.
    LockResponse { id: String, success: bool },
    /// `success` means the key was held by this connection and is now free.
    ReleaseResponse { id: String, success: bool },
    /// The point-in-time lock state of the key.
    CheckResponse { id: String, is_locked: bool },
}

} // verus!
