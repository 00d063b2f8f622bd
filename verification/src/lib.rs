//! A covert HTTP-tunnelled TCP relay core.
//!
//! The crate holds the verified heart of the relay: the obfuscated
//! base64 + tag-length-value frame codec, the per-session byte-stream
//! state machine, the mark-to-session registry, and the request
//! dispatcher. Network and HTTP plumbing live outside the library and
//! drive these components by handing them plain values.

pub mod alphabet;
pub mod b64;
pub mod blv;
pub mod bytemap;
pub mod codec;
pub mod commands;
pub mod errors;
pub mod registry;
pub mod session;
