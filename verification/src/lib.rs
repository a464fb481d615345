//! **ferrium** — a distributed, Raft-replicated key/value store.
//!
//! The library holds what a node computes, every executable function with a
//! contract that Verus proves:
//!
//! - [`protocol`] — the RESP2 wire format (a streaming decoder and an encoder,
//!   both proved against the grammar) and command parsing.
//! - [`storage`] — the state-machine backend ([`storage::MemoryEngine`]).
//! - [`raft`] — the consensus core: the replicated log, the RPC messages,
//!   per-role bookkeeping, the pure [`raft::node::RaftNode`] state machine, its
//!   model as functions on values, and the laws proved over that model.
//! - [`apply`] — applying committed commands to the store.
//! - [`server`] — the runtime driver's decisions: what to send, apply, answer
//!   and publish after each turn.
//! - [`net`] — how client requests are answered.
//! - [`metrics`] — Prometheus counters and gauges and their text format.
//! - [`config`] — the default Raft port and the `--peer` argument's shape.
//! - [`sim`] — a deterministic, in-memory cluster for simulation testing.
//! - [`election`] — election safety of that cluster: every state a
//!   simulation reaches has at most one leader per term.
//! - [`decimal`], [`text`], [`error`] — decimal text, text conversions and the
//!   crate-wide error type.

pub mod apply;
pub mod config;
pub mod decimal;
pub mod election;
pub mod error;
pub mod metrics;
pub mod net;
pub mod protocol;
pub mod raft;
pub mod server;
pub mod sim;
pub mod storage;
pub mod text;

pub use error::{Error, Result};
