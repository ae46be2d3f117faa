//! Keeping connections to `clamd` for further use.

use vstd::prelude::*;

verus! {

/// What a connection that nobody uses is ready for.
#[derive(Clone, Copy, Debug, PartialEq, Eq, Structural)]
pub struct Readiness {
    /// There is something to read, or the other side has gone.
    pub readable: bool,
    /// There is room to write.
    pub writable: bool,
}

/// Why a connection is not used again.
#[derive(Clone, Copy, Debug, PartialEq, Eq, Structural)]
pub enum RecycleFault {
    /// The other side has closed the connection.
    ConnectionReset,
    /// There is something left to read that nobody asked for.
    InvalidData,
    /// Nothing can be written.
    NotConnected,
    /// The operating system reported an error.
    Backend,
}

/// What to do with a connection that is about to be used again.
#[derive(Clone, Copy, Debug, PartialEq, Eq, Structural)]
pub enum RecycleStep {
    /// Read one byte, to see why it is readable.
    Probe,
    /// Use it.
    Keep,
    /// Close it.
    Discard(RecycleFault),
}

impl RecycleFault {
    /// The sentence that describes the fault.
    pub fn message(&self) -> (res: String)
        ensures
            res@ == (match *self {
                RecycleFault::ConnectionReset => "Connection closed"@,
                RecycleFault::NotConnected => "Connection is not writable"@,
                RecycleFault::InvalidData => ""@,
                RecycleFault::Backend => ""@,
            }),
    {
        match self {
            RecycleFault::ConnectionReset => "Connection closed".to_owned(),
            RecycleFault::NotConnected => "Connection is not writable".to_owned(),
            RecycleFault::InvalidData => "".to_owned(),
            RecycleFault::Backend => "".to_owned(),
        }
    }
}

/// Whether a connection is used again: it was ready for writing, and there was
/// nothing to read.
pub open spec fn reusable(readiness: Option<Readiness>) -> bool {
    readiness matches Some(r) && r.writable && !r.readable
}

/// What to do with a connection, by what it is ready for.
pub open spec fn recycle_step(readiness: Option<Readiness>) -> RecycleStep {
    match readiness {
        None => RecycleStep::Discard(RecycleFault::Backend),
        Some(r) => if r.readable {
            RecycleStep::Probe
        } else if r.writable {
            RecycleStep::Keep
        } else {
            RecycleStep::Discard(RecycleFault::NotConnected)
        },
    }
}

/// Why a readable connection is not used again, by how many bytes were read.
pub open spec fn probe_fault(read: Option<usize>) -> RecycleFault {
    match read {
        Some(n) => if n == 0 {
            RecycleFault::ConnectionReset
        } else {
            RecycleFault::InvalidData
        },
        None => RecycleFault::Backend,
    }
}

/// Makes connections to the socket with a certain path.
pub struct StreamManager {
    path: std::path::PathBuf,
}

impl StreamManager {
    /// The path of the socket.
    pub closed spec fn spec_path(self) -> std::path::PathBuf {
        self.path
    }

    /// A manager of connections to the socket with the given path.
    pub fn new(path: std::path::PathBuf) -> (res: Self)
        ensures
            res.spec_path() == path,
    {
        StreamManager { path }
    }

    /// The path of the socket.
    pub fn path(&self) -> (res: &std::path::PathBuf)
        ensures
            *res == self.spec_path(),
    {
        &self.path
    }

    /// Decides about a connection by what it is ready for. Where asking for
    /// that failed, there is no readiness.
    pub fn recycle(&self, readiness: Option<Readiness>) -> (res: RecycleStep)
        ensures
            res == (match readiness {
                None => RecycleStep::Discard(RecycleFault::Backend),
                Some(r) => if r.readable {
                    RecycleStep::Probe
                } else if r.writable {
                    RecycleStep::Keep
                } else {
                    RecycleStep::Discard(RecycleFault::NotConnected)
                },
            }),
            res is Keep <==> reusable(readiness),
            res == recycle_step(readiness),
    {
        match readiness {
            None => RecycleStep::Discard(RecycleFault::Backend),
            Some(r) => {
                if r.readable {
                    RecycleStep::Probe
                } else if r.writable {
                    RecycleStep::Keep
                } else {
                    RecycleStep::Discard(RecycleFault::NotConnected)
                }
            },
        }
    }

    /// Why a readable connection is not used again, by how many bytes could be
    /// read from it. Where the read failed, there is no number.
    pub fn recycle_probe(&self, read: Option<usize>) -> (res: RecycleFault)
        ensures
            res == (match read {
                Some(n) => if n == 0 {
                    RecycleFault::ConnectionReset
                } else {
                    RecycleFault::InvalidData
                },
                None => RecycleFault::Backend,
            }),
            res == probe_fault(read),
    {
        match read {
            Some(n) => {
                if n == 0 {
                    RecycleFault::ConnectionReset
                } else {
                    RecycleFault::InvalidData
                }
            },
            None => RecycleFault::Backend,
        }
    }
}

/// A connection is used again only if it can be written to, and never if there
/// is something to read.
pub proof fn only_quiet_connections_are_reused(r: Readiness)
    ensures
        reusable(Some(r)) <==> r.writable && !r.readable,
        !reusable(None),
{
}

/// A connection is kept exactly if it is quiet and can be written to, and probed
/// exactly if there is something to read. Every other one is discarded, with the
/// reason.
pub proof fn other_connections_are_probed_or_discarded(readiness: Option<Readiness>)
    ensures
        recycle_step(readiness) == RecycleStep::Keep <==> reusable(readiness),
        recycle_step(readiness) == RecycleStep::Probe <==> (readiness matches Some(r) && r.readable),
        recycle_step(readiness) == RecycleStep::Discard(RecycleFault::NotConnected) <==> (
        readiness matches Some(r) && !r.readable && !r.writable),
        recycle_step(readiness) == RecycleStep::Discard(RecycleFault::Backend) <==> readiness is None,
{
}

/// A readable connection was closed exactly if nothing could be read, however
/// many bytes there are otherwise.
pub proof fn closed_connections_give_no_bytes(read: Option<usize>)
    ensures
        probe_fault(read) == RecycleFault::ConnectionReset <==> read == Some(0usize),
        probe_fault(read) == RecycleFault::InvalidData <==> (read matches Some(n) && n > 0),
        probe_fault(read) == RecycleFault::Backend <==> read is None,
{
}

} // verus!
