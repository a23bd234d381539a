//! The error taxonomy of the engine: kinds, not transport details.

use vstd::prelude::*;

verus! {

/// Why an engine operation failed.
#[derive(PartialEq, Eq, Structural, Clone, Copy, Debug)]
pub enum Error {
    /// Disk read or write failure; a write that can no longer be made
    /// durable must fail the client.
    Io,
    /// A checksum mismatch; skipped in read paths, fatal only for a footer.
    Corruption,
    /// Expected end of a record file; an internal signal, not an error at
    /// the API boundary.
    Eof,
    /// The metadata service rejected the request.
    Meta,
    /// The memcache or flush queue is saturated; the caller should back
    /// off.
    ResourceExhausted,
    /// A bad precision, a malformed predicate, or a duplicate series.
    InvalidArgument,
    /// The vnode is closing; retry elsewhere.
    Stopped,
    /// A consensus network failure or timeout; the consensus module
    /// retries.
    Replication,
}

impl Error {
    /// The name of the error kind.
    pub fn kind_name(&self) -> (r: &'static str)
        ensures
            match self {
                Error::Io => r@ == "io"@,
                Error::Corruption => r@ == "corruption"@,
                Error::Eof => r@ == "eof"@,
                Error::Meta => r@ == "meta"@,
                Error::ResourceExhausted => r@ == "resource exhausted"@,
                Error::InvalidArgument => r@ == "invalid argument"@,
                Error::Stopped => r@ == "stopped"@,
                Error::Replication => r@ == "replication"@,
            },
    {
        match self {
            Error::Io => "io",
            Error::Corruption => "corruption",
            Error::Eof => "eof",
            Error::Meta => "meta",
            Error::ResourceExhausted => "resource exhausted",
            Error::InvalidArgument => "invalid argument",
            Error::Stopped => "stopped",
            Error::Replication => "replication",
        }
    }
}

} // verus!
