//! The ways in which a copy or a read can be refused.

use vstd::prelude::*;

verus! {

/// Why a copy or a read was refused. Nothing is written when one is returned
/// by an operation on a single payload.
#[derive(Debug, Clone, Copy, PartialEq, Eq, Structural)]
pub enum Error {
    /// The payload, with its padding, would run past the end of the region.
    OutOfMemory,
    /// The payload would start past the end of the region.
    OffsetOutOfBounds,
    /// The layout, the alignment or an offset left the range of the
    /// machine's sizes.
    InvalidLayout,
    /// The requested offset does not meet the alignment, and the caller
    /// asked for exactly that offset.
    RequestedOffsetUnaligned,
}

impl Error {
    /// A sentence that describes the error.
    pub fn message(&self) -> (text: &'static str)
        ensures
            text@ == (match *self {
                Error::OutOfMemory => "End of copy or read operation would exceed the end of the allocation"@,
                Error::OffsetOutOfBounds => "Requested read from or copy to a location starting outside the allocation"@,
                Error::InvalidLayout => "Computed invalid layout requirements, probably caused by incredibly large size, offset, or alignment parameters"@,
                Error::RequestedOffsetUnaligned => "Requested offset into Slab did not satisfy computed alignment requirements"@,
            }),
    {
        match self {
            Error::OutOfMemory => "End of copy or read operation would exceed the end of the allocation",
            Error::OffsetOutOfBounds => "Requested read from or copy to a location starting outside the allocation",
            Error::InvalidLayout => "Computed invalid layout requirements, probably caused by incredibly large size, offset, or alignment parameters",
            Error::RequestedOffsetUnaligned => "Requested offset into Slab did not satisfy computed alignment requirements",
        }
    }
}

} // verus!
