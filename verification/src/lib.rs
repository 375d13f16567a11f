//! A group-addressed secure message relay.
//!
//! Named nodes register with a central relayer and exchange JSON-encoded
//! messages addressed by (name, group) pairs. The relayer authenticates each
//! message by RSA signature against the sender's registered public key, then
//! forwards it to the target's outbound queue, or bounces it back to the
//! sender with an error annotation when the target is unknown.
//!
//! This crate holds the verified core: the wire codec, the routing and
//! authentication pipeline, the registration bookkeeping, and the CLI command
//! grammar. The asynchronous transport loops around it live outside the
//! library.

pub mod cli;
pub mod codec;
pub mod crypto;
pub mod hooks;
pub mod machine;
pub mod message;
pub mod node;
pub mod relayer;
pub mod transport;
