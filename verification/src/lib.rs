//! Block-synchronization engine for a peer-to-peer blockchain node.
//!
//! The engine keeps a node's local chain up to date with its peers by
//! exchanging block headers and bodies: [`message`] is the protocol's wire
//! vocabulary and its binary codec, [`session`] the per-peer protocol state,
//! [`download`] the pipeline that turns "I need more chain" into concrete
//! header/body requests and assembles ordered blocks from the responses,
//! and [`engine`] the orchestrator that validates inbound messages, applies
//! them, and decides what to send next. [`chain`] models the chain store
//! the engine reads and extends, and [`laws`] states the properties that
//! tie the parts together.

pub mod chain;
pub mod download;
pub mod engine;
pub mod laws;
pub mod message;
pub mod session;

use vstd::prelude::*;

verus! {

/// Largest number of body hashes placed in a single `RequestBodies` message.
pub const MAX_BODY_REQUEST_COUNT: usize = 32;

/// Largest number of headers asked for in a single `RequestHeaders` message.
pub const MAX_HEADER_REQUEST_COUNT: u64 = 128;

/// Largest number of headers kept pending (known but not yet body-completed).
pub const MAX_PENDING_HEADERS: usize = 512;

} // verus!
