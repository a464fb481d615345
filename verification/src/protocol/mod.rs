//! The client-facing wire protocol: RESP2 framing and command parsing.

pub mod command;
pub mod describe;
pub mod resp;

pub use command::Command;
pub use resp::Frame;
