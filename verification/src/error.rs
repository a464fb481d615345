//! Crate-wide error type.
//!
//! Everything fallible in ferrium funnels through [`Error`]. Protocol-level
//! failures are deliberately kept as strings so they can be echoed straight
//! back to the client as a RESP `-ERR ...` reply.

use vstd::prelude::*;

verus! {

#[verifier::external_type_specification]
#[verifier::external_body]
pub struct ExIoError(std::io::Error);

/// Calls `Display::fmt` of `std::io::Error` (through `format!`). The text
/// depends on the operating system's error messages, so nothing is stated
/// about it.
#[verifier::external_body]
fn io_error_text(e: &std::io::Error) -> String {
    format!("{}", e)
}

/// The set of errors ferrium can produce.
#[derive(Debug)]
pub enum Error {
    Io(std::io::Error),
    Protocol(String),
    /// A write was routed to a node that is not the current leader. The
    /// optional payload carries the address of the leader we know about, so
    /// the client can be redirected.
    NotLeader(Option<String>),
    UnknownCommand(String),
    WrongArity(String),
    Storage(String),
    Cluster(String),
}

/// `prefix` followed by `detail`, as a new string.
fn prefixed(prefix: &str, detail: &str) -> (res: String)
    ensures
        res@ == prefix@ + detail@,
{
    let mut out = prefix.to_owned();
    out.append(detail);
    out
}

impl Error {
    /// The text of the error (for every variant but `Io`, whose text comes
    /// from the operating system).
    pub open spec fn text(&self) -> Seq<char> {
        match self {
            Error::Io(_) => "io error: "@,
            Error::Protocol(s) => "protocol error: "@ + s@,
            Error::NotLeader(_) => "not leader"@,
            Error::UnknownCommand(s) => "unknown command '"@ + s@ + "'"@,
            Error::WrongArity(s) => "wrong number of arguments for '"@ + s@ + "'"@,
            Error::Storage(s) => "storage error: "@ + s@,
            Error::Cluster(s) => "cluster error: "@ + s@,
        }
    }

    /// The single-line message sent to clients in a RESP error frame.
    pub open spec fn client_text(&self) -> Seq<char> {
        match self {
            Error::NotLeader(Some(leader)) => "MOVED "@ + leader@,
            Error::NotLeader(None) => "CLUSTERDOWN no known leader"@,
            _ => self.text(),
        }
    }

    /// The single-line message sent to clients in a RESP error frame.
    pub fn client_message(&self) -> (res: String)
        ensures
            self is Io ==> "io error: "@.is_prefix_of(res@),
            !(self is Io) ==> res@ == self.client_text(),
    {
        match self {
            Error::NotLeader(Some(leader)) => prefixed("MOVED ", leader.as_str()),
            Error::NotLeader(None) => "CLUSTERDOWN no known leader".to_owned(),
            Error::Io(e) => {
                let detail = io_error_text(e);
                let res = prefixed("io error: ", detail.as_str());
                assert("io error: "@.is_prefix_of(res@)) by {
                    assert(res@.subrange(0, "io error: "@.len() as int) =~= "io error: "@);
                }
                res
            },
            Error::Protocol(s) => prefixed("protocol error: ", s.as_str()),
            Error::UnknownCommand(s) => {
                let head = prefixed("unknown command '", s.as_str());
                prefixed(head.as_str(), "'")
            },
            Error::WrongArity(s) => {
                let head = prefixed("wrong number of arguments for '", s.as_str());
                prefixed(head.as_str(), "'")
            },
            Error::Storage(s) => prefixed("storage error: ", s.as_str()),
            Error::Cluster(s) => prefixed("cluster error: ", s.as_str()),
        }
    }
}

/// Convenience alias used throughout the crate.
pub type Result<T> = std::result::Result<T, Error>;

} // verus!
