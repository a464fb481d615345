//! The client-facing server's decisions: how each request is answered.

pub mod client;
