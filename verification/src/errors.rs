use vstd::prelude::*;

verus! {

/// The failure kinds the library reports.
///
/// `UnsupportedFormat`: a remote URL matches neither the SSH-style nor the
/// HTTP(S) convention. `OriginUrlNotFound`: the remote exists but records no
/// URL. `HomeDirNotFound`: the per-user configuration root cannot be
/// resolved. `MalformedRegistry`: the shortcut file exists but does not parse
/// as the expected mapping format. `IoFailure`: a file or process operation
/// failed.
#[derive(Debug, Clone, Copy, PartialEq, Eq, Structural)]
pub enum Error {
    UnsupportedFormat,
    OriginUrlNotFound,
    HomeDirNotFound,
    MalformedRegistry,
    IoFailure,
}

} // verus!
