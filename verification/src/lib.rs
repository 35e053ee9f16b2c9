//! A server-side implementation of the Nix daemon worker wire protocol:
//! a length-prefixed, little-endian, eight-byte-aligned codec, the
//! handshake and operation dispatch rules, and an in-memory store index
//! with verified ingest and build registration logic.
use vstd::prelude::*;

pub mod client;
pub mod consts;
pub mod de;
pub mod error;
pub mod protocol;
pub mod sandbox;
pub mod ser;
pub mod server;
pub mod store;
pub mod types;
pub mod wire;

pub use protocol::protocol_version_major;
pub use protocol::protocol_version_minor;

verus! {

} // verus!
