//! A gateway library that republishes messages from a push-based pub/sub
//! channel as a pull-based HTTP event stream, and accepts HTTP writes that
//! are forwarded as publishes onto the same channel namespace.
//!
//! The verified core is made of three parts: the wire codec for events
//! ([`codec`]), the bounded push-to-pull subscription bridge ([`bridge`]),
//! and the compute paths of the two HTTP endpoints ([`api`]). All actual
//! network and HTTP plumbing lives outside the library and hands it plain
//! values.

pub mod api;
pub mod bridge;
pub mod codec;
pub mod codec_laws;
pub mod config;
pub mod seq_facts;
