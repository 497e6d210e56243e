//! Error kinds of the chunk-transfer engine.

use vstd::prelude::*;

verus! {

/// The failure modes of storing and retrieving a chunked object.
///
/// `IOError` is a local read or write failure; `TransportError` is a failed
/// chunk upload or download, reported per chunk; `LedgerConflict` means an
/// object of that name is already recorded; `NotFound` means no object of
/// that name is recorded; `CorruptLedger` means the recorded chunk indices
/// are not the contiguous range starting at zero.
#[derive(Clone, Copy, Debug, PartialEq, Eq, Structural)]
pub enum DriveError {
    IOError,
    TransportError,
    LedgerConflict,
    NotFound,
    CorruptLedger,
}

} // verus!
