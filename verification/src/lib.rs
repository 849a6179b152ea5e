//! A persistent entity store for avatars, event tickets and shared virtual
//! worlds, keyed by an opaque caller identity.
//!
//! The store keeps each collection in a durable map backend with two
//! interchangeable policies: a volatile in-process map and a persistent map
//! backed by a segmented durable region that survives a process restart.
//! Records are framed into bytes by a verified codec before they reach the
//! backend, and per-kind counters mint collision-free string identifiers.

pub mod backend;
pub mod codec;
pub mod laws;
pub mod records;
pub mod stable;
pub mod store;
pub mod text;
pub mod types;
pub mod volatile;
