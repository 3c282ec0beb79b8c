//! Placement of plain values in byte regions that may hold unwritten bytes.
//!
//! A region is a run of bytes at some base address, each byte either written
//! or not yet written. The crate computes where a payload of a given layout
//! may start in such a region, copies payloads in, and reads them back.
//! Every placement is checked against the region's bounds and the payload's
//! alignment before a byte is touched.

pub mod copy;
pub mod error;
pub mod layout;
pub mod offsets;
pub mod plain;
pub mod read;
pub mod slab;
pub mod uninit;

pub use copy::{
    copy_bytes_to_offset, copy_from_iter_to_offset_with_align,
    copy_from_iter_to_offset_with_align_exact_packed, copy_from_iter_to_offset_with_align_packed,
    copy_from_slice_to_offset, copy_from_slice_to_offset_exact,
    copy_from_slice_to_offset_with_align, copy_from_slice_to_offset_with_align_exact,
    copy_to_offset, copy_to_offset_exact, copy_to_offset_with_align,
    copy_to_offset_with_align_exact, slice_to_bytes, CopyRecord,
};
pub use error::Error;
pub use layout::{checked_next_power_of_two, checked_round_up, is_power_of_two, Layout};
pub use offsets::{align_offset_up_to, compute_and_validate_offsets, ComputedOffsets};
pub use plain::Plain;
pub use read::{
    ffi_readback_target, get_maybe_uninit_at_offset_mut, get_maybe_uninit_at_offset_mut_unchecked,
    get_maybe_uninit_slice_at_offset_mut, get_maybe_uninit_slice_at_offset_mut_unchecked,
    read_at_offset, read_at_offset_unchecked, read_slice_at_offset,
    read_slice_at_offset_unchecked, readback_from_ffi, readback_slice_from_ffi, values_from_bytes,
};
pub use slab::{write_bytes, BorrowedRawAllocation, HeapSlab, RawAllocation, Slab};
pub use uninit::{
    clone_into_maybe_uninit_slice, copy_into_maybe_uninit_slice, maybe_uninit_slice_from_vec,
};
