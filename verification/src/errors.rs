use vstd::prelude::*;

verus! {

/// The failure kinds that the store's operations can report.
#[derive(Clone, Copy, PartialEq, Eq, Structural, Debug)]
pub enum StoreError {
    /// A store path does not have the `<prefix>/<hash>-<name>` form.
    InvalidPath,
    /// No daemon has the path and no peer has the refs.
    Unresolvable,
    /// The recursion bound was hit while expanding a closure.
    DepthExceeded,
    /// An archive byte stream does not follow the canonical framing.
    MalformedArchive,
    /// An archive holds a node kind the codec does not support.
    UnsupportedEntry,
    /// A daemon could not be reached or answered with a transport fault.
    DaemonUnavailable,
    /// A Git remote could not be reached.
    PeerUnavailable,
    /// The local Git repository reported a write or read failure.
    StorageFault,
    /// A reference already exists and points at a conflicting object.
    InvariantViolation,
}

impl StoreError {
    /// A short diagnostic text for the error kind.
    pub fn describe(&self) -> &'static str {
        match self {
            StoreError::InvalidPath => "malformed store path",
            StoreError::Unresolvable => "no daemon or peer can provide the path",
            StoreError::DepthExceeded => "dependency recursion bound exceeded",
            StoreError::MalformedArchive => "malformed archive framing",
            StoreError::UnsupportedEntry => "unsupported archive entry kind",
            StoreError::DaemonUnavailable => "daemon unavailable",
            StoreError::PeerUnavailable => "git peer unavailable",
            StoreError::StorageFault => "local git storage failure",
            StoreError::InvariantViolation => "reference already set to a conflicting object",
        }
    }
}

} // verus!
