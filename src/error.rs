use vstd::prelude::*;

verus! {

/// Errors of the storage engine and of the routing layer.
#[derive(Debug, Clone)]
pub enum Error {
    /// Normal negative result of a read.
    KeyNotFound,
    /// Write conflict; counts as success for quorum accounting.
    DuplicateKey,
    /// The holder is initialising or reinitialising.
    VDiskIsNotReady,
    /// No group serves the vdisk.
    VDiskNotFound(u32),
    /// A per-call deadline was exceeded.
    Timeout,
    /// No live connection to the peer.
    Unreachable,
    /// A failure reported by a peer.
    RemoteError(String),
    /// I/O or corruption in the partition store.
    StorageError(String),
    /// Fewer than `quorum` replicas acknowledged.
    QuorumFailed { ok: u64, total: u64, quorum: u64 },
    /// Configuration validation failed.
    InvalidConfig(String),
    /// Some other failure.
    Failed(String),
    /// Every replica answered a read with a failure.
    GetFailed,
}

impl Error {
    /// A write error that calls for reinitialising the holder: anything but
    /// `DuplicateKey` and `VDiskIsNotReady`.
    pub open spec fn spec_put_needs_restart(err: Option<Error>) -> bool {
        match err {
            Some(Error::DuplicateKey) | Some(Error::VDiskIsNotReady) => false,
            Some(_) => true,
            None => false,
        }
    }

    /// A read error that calls for reinitialising the holder: anything but
    /// `KeyNotFound` and `VDiskIsNotReady`.
    pub open spec fn spec_get_needs_restart(err: Option<Error>) -> bool {
        match err {
            Some(Error::KeyNotFound) | Some(Error::VDiskIsNotReady) => false,
            Some(_) => true,
            None => false,
        }
    }

    pub fn is_put_error_need_restart(err: Option<&Error>) -> (r: bool)
        ensures
            r == Self::spec_put_needs_restart(
                match err {
                    Some(e) => Some(*e),
                    None => None,
                },
            ),
    {
        match err {
            Some(Error::DuplicateKey) | Some(Error::VDiskIsNotReady) => false,
            Some(_) => true,
            None => false,
        }
    }

    pub fn is_get_error_need_restart(err: Option<&Error>) -> (r: bool)
        ensures
            r == Self::spec_get_needs_restart(
                match err {
                    Some(e) => Some(*e),
                    None => None,
                },
            ),
    {
        match err {
            Some(Error::KeyNotFound) | Some(Error::VDiskIsNotReady) => false,
            Some(_) => true,
            None => false,
        }
    }

    pub fn is_key_not_found(&self) -> (r: bool)
        ensures
            r == (*self is KeyNotFound),
    {
        match self {
            Error::KeyNotFound => true,
            _ => false,
        }
    }
}

} // verus!
