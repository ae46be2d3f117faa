//! The error numbers of the kernel that the daemon tells apart.

use crate::text::joined;
use vstd::prelude::*;

verus! {

/// An error number, as far as it decides what is done next.
#[derive(Clone, Copy, Debug, PartialEq, Eq, Structural)]
pub enum ErrnoKind {
    /// The operation is not permitted.
    NotPermitted,
    /// There is nothing to read or no room to write yet.
    WouldBlock,
    /// A table of the kernel is full.
    NoSpace,
    /// Any other error.
    Other,
}

/// The kind of a Linux error number.
pub open spec fn errno_kind(raw: i32) -> ErrnoKind {
    if raw == 1 {
        ErrnoKind::NotPermitted
    } else if raw == 11 {
        ErrnoKind::WouldBlock
    } else if raw == 28 {
        ErrnoKind::NoSpace
    } else {
        ErrnoKind::Other
    }
}

/// Calls `nix::errno::Errno::from_raw` and tells its variants apart.
///
/// Trusted: on Linux `EPERM` is 1, `EAGAIN`, which `EWOULDBLOCK` is another
/// name of, is 11, and `ENOSPC` is 28; no other number gives one of them.
#[verifier::external_body]
pub(crate) fn kind_of_errno(raw: i32) -> (res: ErrnoKind)
    ensures
        res == errno_kind(raw),
{
    match nix::errno::Errno::from_raw(raw) {
        nix::errno::Errno::EPERM => ErrnoKind::NotPermitted,
        nix::errno::Errno::EWOULDBLOCK => ErrnoKind::WouldBlock,
        nix::errno::Errno::ENOSPC => ErrnoKind::NoSpace,
        _ => ErrnoKind::Other,
    }
}

/// Why watching could not begin.
#[derive(Clone, Copy, Debug, PartialEq, Eq, Structural)]
pub enum InitFailure {
    /// The daemon may not watch.
    NoPrivilege,
    /// Something else went wrong.
    Other,
}

/// Why watching could not begin, by the error number.
pub open spec fn failure_of(raw: i32) -> InitFailure {
    match errno_kind(raw) {
        ErrnoKind::NotPermitted => InitFailure::NoPrivilege,
        _ => InitFailure::Other,
    }
}

/// Tells why watching could not begin, by the error number.
pub fn init_failure(raw: i32) -> (res: InitFailure)
    ensures
        res == (if errno_kind(raw) == ErrnoKind::NotPermitted {
            InitFailure::NoPrivilege
        } else {
            InitFailure::Other
        }),
        res == failure_of(raw),
{
    match kind_of_errno(raw) {
        ErrnoKind::NotPermitted => InitFailure::NoPrivilege,
        _ => InitFailure::Other,
    }
}

impl InitFailure {
    /// The sentence that describes the failure to a user.
    pub fn message(&self) -> (res: String)
        ensures
            res@ == (match *self {
                InitFailure::NoPrivilege =>
                    "Permission denied. This program must be run with root privileges (CAP_SYS_ADMIN)."@,
                InitFailure::Other => "Failed to initialize fanotify"@,
            }),
    {
        match self {
            InitFailure::NoPrivilege =>
                "Permission denied. This program must be run with root privileges (CAP_SYS_ADMIN).".to_owned(),
            InitFailure::Other => "Failed to initialize fanotify".to_owned(),
        }
    }

    /// The whole sentence. It shows what the operating system says of the error
    /// unless a privilege is missing.
    pub fn describe(&self, detail: &str) -> (res: String)
        ensures
            res@ == (match *self {
                InitFailure::NoPrivilege =>
                    "Permission denied. This program must be run with root privileges (CAP_SYS_ADMIN)."@,
                InitFailure::Other => "Failed to initialize fanotify"@ + ": "@ + detail@,
            }),
    {
        match self {
            InitFailure::NoPrivilege => self.message(),
            InitFailure::Other => joined(self.message().as_str(), ": ", detail),
        }
    }
}

/// Three error numbers are told apart from all others.
pub proof fn three_numbers_are_told_apart(raw: i32)
    ensures
        errno_kind(raw) == ErrnoKind::NotPermitted <==> raw == 1,
        errno_kind(raw) == ErrnoKind::WouldBlock <==> raw == 11,
        errno_kind(raw) == ErrnoKind::NoSpace <==> raw == 28,
{
}

/// A privilege is missing exactly if the error number says so.
pub proof fn missing_privilege_has_one_number(raw: i32)
    ensures
        failure_of(raw) == InitFailure::NoPrivilege <==> raw == 1,
        failure_of(raw) == InitFailure::Other <==> raw != 1,
{
}

} // verus!
