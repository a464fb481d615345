//! The Raft consensus implementation: the replicated log, the RPC messages,
//! role bookkeeping and the pure node state machine.

pub mod log;
pub mod message;
pub mod state;
pub mod model;
pub mod node;
pub mod laws;
pub mod runs;

pub use log::{LogEntry, RaftLog};
pub use message::{Message, NodeId};
pub use node::{Committed, Envelope, RaftConfig, RaftNode, Ready};
pub use state::Role;
