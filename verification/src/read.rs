//! Reading payloads back out of a region.

use crate::copy::{bytes_after_copy, slice_bytes, spec_array_layout, spec_copy};
use crate::error::Error;
use crate::layout::{
    lemma_round_up, lemma_round_up_least, next_power_of_two, round_up, Layout,
};
use crate::offsets::{
    aligned_offset, compute_and_validate_offsets, effective_align, lemma_effective_align,
    lemma_multiple_of_multiple, lemma_spec_offsets, spec_offsets, ComputedOffsets,
};
use crate::plain::Plain;
use crate::slab::{contents, initialized, written, Slab};
use vstd::prelude::*;
use vstd::slice::slice_subrange;

verus! {

/// Whether the bytes that a read at `offset` of a payload of layout
/// `layout` would take have all been written. It says nothing of a read
/// that the checks refuse.
pub open spec fn read_ready(
    base: usize,
    bytes: Seq<Option<u8>>,
    offset: usize,
    layout: Layout,
) -> bool {
    match spec_offsets(base, bytes.len() as usize, offset, layout, 1, true) {
        Ok(o) => initialized(bytes, o.start as int, o.end as int),
        Err(_) => true,
    }
}

/// The bytes that a read at exactly `offset` of a payload of layout
/// `layout` takes from a region with bytes `bytes` at `base`, or the error
/// that refuses the read. A read never moves forward to meet the alignment.
pub open spec fn spec_read(base: usize, bytes: Seq<Option<u8>>, offset: usize, layout: Layout)
    -> Result<Seq<u8>, Error> {
    match spec_offsets(base, bytes.len() as usize, offset, layout, 1, true) {
        Ok(o) => Ok(contents(bytes, o.start as int, layout.spec_size() as int)),
        Err(e) => Err(e),
    }
}

/// A payload that was copied into a region is read back, bit for bit, at
/// the start that the copy's record gives: whatever offset, floor and mode
/// the copy was made with, the read there is granted, the bytes it takes
/// have all been written, and they are the payload's.
pub proof fn lemma_copy_then_read(
    base: usize,
    before: Seq<Option<u8>>,
    data: Seq<u8>,
    start_offset: usize,
    layout: Layout,
    min_alignment: usize,
    exact: bool,
)
    requires
        layout.valid(),
        data.len() == layout.spec_size(),
        before.len() <= usize::MAX,
        spec_copy(base, before.len() as usize, start_offset, layout, min_alignment, exact).is_ok(),
    ensures
        ({
            let result = spec_copy(
                base,
                before.len() as usize,
                start_offset,
                layout,
                min_alignment,
                exact,
            );
            let after = bytes_after_copy(before, result, data);
            &&& read_ready(base, after, result.unwrap().start_offset, layout)
            &&& spec_read(base, after, result.unwrap().start_offset, layout) == Ok::<
                Seq<u8>,
                Error,
            >(data)
        }),
{
    let size = before.len() as usize;
    let o = spec_offsets(base, size, start_offset, layout, min_alignment, exact).unwrap();
    let after = written(before, o.start as int, data);
    let align = effective_align(layout, min_alignment);
    let own = layout.spec_align() as int;
    lemma_spec_offsets(base, size, start_offset, layout, min_alignment, exact);
    lemma_effective_align(layout, min_alignment);
    assert(next_power_of_two(1) == 1);
    assert(effective_align(layout, 1) == own);
    lemma_round_up(layout.spec_size() as int, align);
    lemma_round_up(layout.spec_size() as int, own);
    lemma_multiple_of_multiple(round_up(layout.spec_size() as int, align), own, align);
    lemma_round_up_least(
        layout.spec_size() as int,
        own,
        round_up(layout.spec_size() as int, align),
    );
    assert(aligned_offset(base as int, o.start as int, own) == o.start);
    let again = spec_offsets(base, after.len() as usize, o.start, layout, 1, true);
    assert(again.is_ok());
    assert(again.unwrap().start == o.start);
    assert(contents(after, o.start as int, layout.spec_size() as int) =~= data);
}

/// The value that is read back where a value was copied is that value.
pub proof fn lemma_copy_then_read_value<T: Plain>(
    base: usize,
    before: Seq<Option<u8>>,
    value: T,
    start_offset: usize,
    min_alignment: usize,
    exact: bool,
    read: T,
)
    requires
        before.len() <= usize::MAX,
        spec_copy(
            base,
            before.len() as usize,
            start_offset,
            T::spec_layout(),
            min_alignment,
            exact,
        ).is_ok(),
        spec_read(
            base,
            bytes_after_copy(
                before,
                spec_copy(
                    base,
                    before.len() as usize,
                    start_offset,
                    T::spec_layout(),
                    min_alignment,
                    exact,
                ),
                value.spec_bytes(),
            ),
            spec_copy(
                base,
                before.len() as usize,
                start_offset,
                T::spec_layout(),
                min_alignment,
                exact,
            ).unwrap().start_offset,
            T::spec_layout(),
        ) == Ok::<Seq<u8>, Error>(read.spec_bytes()),
    ensures
        read == value,
{
    T::lemma_layout();
    value.lemma_bytes_len();
    lemma_copy_then_read(
        base,
        before,
        value.spec_bytes(),
        start_offset,
        T::spec_layout(),
        min_alignment,
        exact,
    );
    read.lemma_bytes_injective(&value);
}

/// The bytes of `slab` that a payload of layout `layout` takes at exactly
/// `offset`, once the placement has passed the checks.
fn read_bytes_at_offset<S: Slab>(slab: &S, offset: usize, layout: Layout) -> (r: Result<
    Vec<u8>,
    Error,
>)
    requires
        slab.wf(),
        read_ready(slab.spec_base(), slab.bytes(), offset, layout),
    ensures
        match spec_read(slab.spec_base(), slab.bytes(), offset, layout) {
            Ok(data) => r.is_ok() && r.unwrap()@ == data,
            Err(e) => r == Err::<Vec<u8>, Error>(e),
        },
{
    let base = slab.base_ptr();
    let size = slab.size();
    let payload_size = layout.size();
    match compute_and_validate_offsets(base, size, offset, layout, 1, true) {
        Ok(offsets) => {
            proof {
                lemma_spec_offsets(base, size, offset, layout, 1, true);
            }
            Ok(slab.assume_range_initialized_as_bytes(offsets.start, offsets.end))
        },
        Err(e) => Err(e),
    }
}

/// The `n` values whose bytes, one value after another, are `raw`.
pub fn values_from_bytes<T: Plain>(raw: &[u8], n: usize) -> (r: Vec<T>)
    requires
        raw@.len() == n * T::spec_layout().spec_size(),
    ensures
        r@.len() == n,
        slice_bytes(r@) == raw@,
{
    let size = T::layout().size();
    let total = raw.len();
    let mut out: Vec<T> = Vec::new();
    let mut i: usize = 0;
    let mut pos: usize = 0;
    assert(slice_bytes(out@) =~= raw@.take(0));
    while i < n
        invariant
            size == T::spec_layout().spec_size(),
            raw@.len() == n * size,
            raw@.len() == total,
            i <= n,
            pos == i * size,
            out@.len() == i,
            slice_bytes(out@) == raw@.take(pos as int),
        decreases n - i,
    {
        assert((i + 1) * size <= n * size) by (nonlinear_arith)
            requires
                i + 1 <= n,
                size >= 0,
        ;
        assert((i + 1) * size == i * size + size) by (nonlinear_arith);
        let chunk = slice_subrange(raw, pos, pos + size);
        let value = T::from_bytes(chunk);
        let ghost before = out@;
        out.push(value);
        assert(out@.drop_last() =~= before);
        assert(raw@.take(pos + size) =~= raw@.take(pos as int) + chunk@);
        i += 1;
        pos += size;
    }
    assert(raw@.take(pos as int) =~= raw@);
    out
}

/// Reads the value of type `T` that lies in `slab` at exactly `offset`.
/// The caller vouches that a value was written there.
pub fn read_at_offset<T: Plain, S: Slab>(slab: &S, offset: usize) -> (r: Result<T, Error>)
    requires
        slab.wf(),
        read_ready(slab.spec_base(), slab.bytes(), offset, T::spec_layout()),
    ensures
        match spec_read(slab.spec_base(), slab.bytes(), offset, T::spec_layout()) {
            Ok(data) => r.is_ok() && r.unwrap().spec_bytes() == data,
            Err(e) => r == Err::<T, Error>(e),
        },
{
    match read_bytes_at_offset(slab, offset, T::layout()) {
        Ok(data) => Ok(T::from_bytes(data.as_slice())),
        Err(e) => Err(e),
    }
}

/// Reads the value of type `T` that lies in `slab` at `offset`, without
/// the checks: the caller vouches that they would pass and that a value
/// was written there.
pub fn read_at_offset_unchecked<T: Plain, S: Slab>(slab: &S, offset: usize) -> (r: T)
    requires
        slab.wf(),
        spec_read(slab.spec_base(), slab.bytes(), offset, T::spec_layout()).is_ok(),
        read_ready(slab.spec_base(), slab.bytes(), offset, T::spec_layout()),
    ensures
        Ok::<Seq<u8>, Error>(r.spec_bytes()) == spec_read(
            slab.spec_base(),
            slab.bytes(),
            offset,
            T::spec_layout(),
        ),
{
    let size = slab.size();
    let payload_size = T::layout().size();
    proof {
        lemma_spec_offsets(slab.spec_base(), size, offset, T::spec_layout(), 1, true);
    }
    let data = slab.assume_range_initialized_as_bytes(offset, offset + payload_size);
    T::from_bytes(data.as_slice())
}

/// What a read of a block of `n` values of type `T` at exactly `offset`
/// returns: the values whose bytes `spec_read` gives for the block's
/// layout, or `InvalidLayout` where the block has no layout.
pub open spec fn read_block<T: Plain>(
    base: usize,
    bytes: Seq<Option<u8>>,
    offset: usize,
    n: usize,
    result: Result<Vec<T>, Error>,
) -> bool {
    match spec_array_layout(T::spec_layout(), n as int) {
        Ok(layout) => match spec_read(base, bytes, offset, layout) {
            Ok(data) => result.is_ok() && result.unwrap()@.len() == n && slice_bytes(
                result.unwrap()@,
            ) == data,
            Err(e) => result == Err::<Vec<T>, Error>(e),
        },
        Err(e) => result == Err::<Vec<T>, Error>(e),
    }
}

/// Whether the bytes that a read of a block of `n` values of layout
/// `element` at `offset` would take have all been written.
pub open spec fn read_block_ready(
    base: usize,
    bytes: Seq<Option<u8>>,
    offset: usize,
    element: Layout,
    n: usize,
) -> bool {
    match spec_array_layout(element, n as int) {
        Ok(layout) => read_ready(base, bytes, offset, layout),
        Err(_) => true,
    }
}

/// Reads the `len` values of type `T` that lie one after another in `slab`
/// from exactly `offset` on. The caller vouches that they were written
/// there.
pub fn read_slice_at_offset<T: Plain, S: Slab>(slab: &S, offset: usize, len: usize) -> (r: Result<
    Vec<T>,
    Error,
>)
    requires
        slab.wf(),
        read_block_ready(slab.spec_base(), slab.bytes(), offset, T::spec_layout(), len),
    ensures
        read_block(slab.spec_base(), slab.bytes(), offset, len, r),
{
    proof {
        Layout::lemma_spec_from_size_align(
            T::spec_layout().spec_size() * len,
            T::spec_layout().spec_align() as int,
        );
        assert(T::spec_layout().spec_size() * len == len * T::spec_layout().spec_size())
            by (nonlinear_arith);
    }
    let t_layout = match Layout::array(T::layout(), len) {
        Ok(layout) => layout,
        Err(_) => {
            return Err(Error::InvalidLayout);
        },
    };
    match read_bytes_at_offset(slab, offset, t_layout) {
        Ok(data) => Ok(values_from_bytes(data.as_slice(), len)),
        Err(e) => Err(e),
    }
}

/// Reads the `len` values of type `T` that lie one after another in `slab`
/// from `offset` on, without the checks: the caller vouches that they
/// would pass and that the values were written there.
pub fn read_slice_at_offset_unchecked<T: Plain, S: Slab>(slab: &S, offset: usize, len: usize) -> (r:
    Vec<T>)
    requires
        slab.wf(),
        spec_array_layout(T::spec_layout(), len as int).is_ok(),
        spec_read(
            slab.spec_base(),
            slab.bytes(),
            offset,
            spec_array_layout(T::spec_layout(), len as int).unwrap(),
        ).is_ok(),
        read_block_ready(slab.spec_base(), slab.bytes(), offset, T::spec_layout(), len),
    ensures
        read_block(slab.spec_base(), slab.bytes(), offset, len, Ok(r)),
{
    let size = slab.size();
    let payload_size = T::layout().size();
    proof {
        let layout = spec_array_layout(T::spec_layout(), len as int).unwrap();
        Layout::lemma_spec_from_size_align(
            T::spec_layout().spec_size() * len,
            T::spec_layout().spec_align() as int,
        );
        lemma_spec_offsets(slab.spec_base(), size, offset, layout, 1, true);
        assert(T::spec_layout().spec_size() * len == len * T::spec_layout().spec_size())
            by (nonlinear_arith);
    }
    let data = slab.assume_range_initialized_as_bytes(offset, offset + payload_size * len);
    values_from_bytes(data.as_slice(), len)
}

/// What the place of a `T` at `start` holds: the value whose bytes lie
/// there where all of them have been written, and nothing where one of
/// them has not.
pub open spec fn maybe_value<T: Plain>(bytes: Seq<Option<u8>>, start: int, value: Option<T>)
    -> bool {
    let size = T::spec_layout().spec_size() as int;
    if initialized(bytes, start, start + size) {
        value.is_some() && value.unwrap().spec_bytes() == contents(bytes, start, size)
    } else {
        value.is_none()
    }
}

/// The values of the bytes of `slab` from `start` up to `end`, where all
/// of them have been written.
fn written_bytes<S: Slab>(slab: &S, start: usize, end: usize) -> (r: Option<Vec<u8>>)
    requires
        slab.wf(),
        start <= end <= slab.bytes().len(),
    ensures
        match r {
            Some(data) => initialized(slab.bytes(), start as int, end as int) && data@ == contents(
                slab.bytes(),
                start as int,
                end - start,
            ),
            None => !initialized(slab.bytes(), start as int, end as int),
        },
{
    let all = slab.as_maybe_uninit_bytes();
    let mut out: Vec<u8> = Vec::new();
    let mut i: usize = start;
    while i < end
        invariant
            all@ == slab.bytes(),
            start <= i <= end <= all@.len(),
            initialized(slab.bytes(), start as int, i as int),
            out@ == contents(slab.bytes(), start as int, i - start),
        decreases end - i,
    {
        match all[i] {
            Some(b) => out.push(b),
            None => {
                assert(slab.bytes()[i as int].is_none());
                return None;
            },
        }
        i += 1;
        assert(out@ =~= contents(slab.bytes(), start as int, i - start));
    }
    Some(out)
}

/// The place of a `T` in `slab` at `start`, with the value that it holds
/// if all of its bytes have been written.
fn maybe_value_at<T: Plain, S: Slab>(slab: &S, start: usize) -> (r: Option<T>)
    requires
        slab.wf(),
        start + T::spec_layout().spec_size() <= slab.bytes().len(),
    ensures
        maybe_value(slab.bytes(), start as int, r),
{
    let region_size = slab.size();
    let size = T::layout().size();
    match written_bytes(slab, start, start + size) {
        Some(data) => Some(T::from_bytes(data.as_slice())),
        None => None,
    }
}

/// The place of a `T` in `slab` at exactly `offset`: the value that lies
/// there, or `None` where not all of its bytes have been written. The
/// caller vouches for nothing.
pub fn get_maybe_uninit_at_offset_mut<T: Plain, S: Slab>(slab: &S, offset: usize) -> (r: Result<
    Option<T>,
    Error,
>)
    requires
        slab.wf(),
    ensures
        match spec_offsets(
            slab.spec_base(),
            slab.bytes().len() as usize,
            offset,
            T::spec_layout(),
            1,
            true,
        ) {
            Ok(o) => r.is_ok() && maybe_value(slab.bytes(), o.start as int, r.unwrap()),
            Err(e) => r == Err::<Option<T>, Error>(e),
        },
{
    let base = slab.base_ptr();
    let size = slab.size();
    let layout = T::layout();
    let payload_size = layout.size();
    match compute_and_validate_offsets(base, size, offset, layout, 1, true) {
        Ok(offsets) => {
            proof {
                lemma_spec_offsets(base, size, offset, layout, 1, true);
            }
            Ok(maybe_value_at(slab, offsets.start))
        },
        Err(e) => Err(e),
    }
}

/// The place of a `T` in `slab` at `offset`, without the checks: the
/// caller vouches that they would pass, and for nothing else.
pub fn get_maybe_uninit_at_offset_mut_unchecked<T: Plain, S: Slab>(slab: &S, offset: usize) -> (r:
    Option<T>)
    requires
        slab.wf(),
        spec_offsets(
            slab.spec_base(),
            slab.bytes().len() as usize,
            offset,
            T::spec_layout(),
            1,
            true,
        ).is_ok(),
    ensures
        maybe_value(slab.bytes(), offset as int, r),
{
    let size = slab.size();
    let payload_size = T::layout().size();
    proof {
        lemma_spec_offsets(slab.spec_base(), size, offset, T::spec_layout(), 1, true);
    }
    maybe_value_at(slab, offset)
}

/// The `n` places of a `T` that lie one after another in `slab` from
/// `start` on, each with the value that it holds if all of its bytes have
/// been written.
fn maybe_values_at<T: Plain, S: Slab>(slab: &S, start: usize, n: usize) -> (r: Vec<Option<T>>)
    requires
        slab.wf(),
        start + n * T::spec_layout().spec_size() <= slab.bytes().len(),
    ensures
        r@.len() == n,
        forall|k: int|
            0 <= k < n ==> maybe_value(
                slab.bytes(),
                start + k * T::spec_layout().spec_size(),
                #[trigger] r@[k],
            ),
{
    let region_size = slab.size();
    let size = T::layout().size();
    let mut out: Vec<Option<T>> = Vec::new();
    let mut i: usize = 0;
    let mut pos: usize = start;
    while i < n
        invariant
            slab.wf(),
            size == T::spec_layout().spec_size(),
            region_size == slab.bytes().len(),
            start + n * size <= region_size,
            i <= n,
            pos == start + i * size,
            out@.len() == i,
            forall|k: int| 0 <= k < i ==> maybe_value(slab.bytes(), start + k * size, #[trigger] out@[k]),
        decreases n - i,
    {
        assert((i + 1) * size <= n * size) by (nonlinear_arith)
            requires
                i + 1 <= n,
                size >= 0,
        ;
        assert((i + 1) * size == i * size + size) by (nonlinear_arith);
        let value = maybe_value_at::<T, S>(slab, pos);
        out.push(value);
        i += 1;
        pos += size;
    }
    out
}

/// The `len` places of a `T` that lie one after another in `slab` from
/// exactly `offset` on: each holds the value that lies there, or `None`
/// where not all of its bytes have been written. The caller vouches for
/// nothing.
pub fn get_maybe_uninit_slice_at_offset_mut<T: Plain, S: Slab>(
    slab: &S,
    offset: usize,
    len: usize,
) -> (r: Result<Vec<Option<T>>, Error>)
    requires
        slab.wf(),
    ensures
        match spec_array_layout(T::spec_layout(), len as int) {
            Ok(layout) => match spec_offsets(
                slab.spec_base(),
                slab.bytes().len() as usize,
                offset,
                layout,
                1,
                true,
            ) {
                Ok(o) => r.is_ok() && r.unwrap()@.len() == len && forall|k: int|
                    0 <= k < len ==> maybe_value(
                        slab.bytes(),
                        o.start + k * T::spec_layout().spec_size(),
                        #[trigger] r.unwrap()@[k],
                    ),
                Err(e) => r == Err::<Vec<Option<T>>, Error>(e),
            },
            Err(e) => r == Err::<Vec<Option<T>>, Error>(e),
        },
{
    proof {
        Layout::lemma_spec_from_size_align(
            T::spec_layout().spec_size() * len,
            T::spec_layout().spec_align() as int,
        );
        assert(T::spec_layout().spec_size() * len == len * T::spec_layout().spec_size())
            by (nonlinear_arith);
    }
    let t_layout = match Layout::array(T::layout(), len) {
        Ok(layout) => layout,
        Err(_) => {
            return Err(Error::InvalidLayout);
        },
    };
    let base = slab.base_ptr();
    let size = slab.size();
    let block_size = t_layout.size();
    match compute_and_validate_offsets(base, size, offset, t_layout, 1, true) {
        Ok(offsets) => {
            proof {
                lemma_spec_offsets(base, size, offset, t_layout, 1, true);
            }
            Ok(maybe_values_at(slab, offsets.start, len))
        },
        Err(e) => Err(e),
    }
}

/// The `len` places of a `T` that lie one after another in `slab` from
/// `offset` on, without the checks: the caller vouches that they would
/// pass, and for nothing else.
pub fn get_maybe_uninit_slice_at_offset_mut_unchecked<T: Plain, S: Slab>(
    slab: &S,
    offset: usize,
    len: usize,
) -> (r: Vec<Option<T>>)
    requires
        slab.wf(),
        spec_array_layout(T::spec_layout(), len as int).is_ok(),
        spec_offsets(
            slab.spec_base(),
            slab.bytes().len() as usize,
            offset,
            spec_array_layout(T::spec_layout(), len as int).unwrap(),
            1,
            true,
        ).is_ok(),
    ensures
        r@.len() == len,
        forall|k: int|
            0 <= k < len ==> maybe_value(
                slab.bytes(),
                offset + k * T::spec_layout().spec_size(),
                #[trigger] r@[k],
            ),
{
    let size = slab.size();
    proof {
        let layout = spec_array_layout(T::spec_layout(), len as int).unwrap();
        Layout::lemma_spec_from_size_align(
            T::spec_layout().spec_size() * len,
            T::spec_layout().spec_align() as int,
        );
        lemma_spec_offsets(slab.spec_base(), size, offset, layout, 1, true);
        assert(T::spec_layout().spec_size() * len == len * T::spec_layout().spec_size())
            by (nonlinear_arith);
    }
    maybe_values_at(slab, offset, len)
}

/// Where a value of layout `layout` that an outside routine writes into a
/// region lies: at the first offset of the region whose address meets the
/// layout's alignment.
pub open spec fn spec_readback_offsets(base: usize, region_size: usize, layout: Layout) -> Result<
    ComputedOffsets,
    Error,
> {
    spec_offsets(base, region_size, 0, layout, 1, false)
}

/// The address at which an outside routine is to write values of type `T`
/// into `slab`, and the number of bytes of `slab` that lie after the first
/// such value and its padding.
pub fn ffi_readback_target<T: Plain, S: Slab>(slab: &S) -> (r: Result<(usize, usize), Error>)
    requires
        slab.wf(),
    ensures
        match spec_readback_offsets(
            slab.spec_base(),
            slab.bytes().len() as usize,
            T::spec_layout(),
        ) {
            Ok(o) => r == Ok::<(usize, usize), Error>(
                (
                    (slab.spec_base() + o.start) as usize,
                    (slab.bytes().len() - o.end_padded) as usize,
                ),
            ),
            Err(e) => r == Err::<(usize, usize), Error>(e),
        },
{
    let base = slab.base_ptr();
    let size = slab.size();
    let layout = T::layout();
    let payload_size = layout.size();
    match compute_and_validate_offsets(base, size, 0, layout, 1, false) {
        Ok(offsets) => {
            proof {
                lemma_spec_offsets(base, size, 0, layout, 1, false);
            }
            Ok((base + offsets.start, size - offsets.end_padded))
        },
        Err(e) => Err(e),
    }
}

/// Whether the bytes of the value that an outside routine was to write
/// have all been written.
pub open spec fn readback_ready(base: usize, bytes: Seq<Option<u8>>, layout: Layout) -> bool {
    match spec_readback_offsets(base, bytes.len() as usize, layout) {
        Ok(o) => initialized(bytes, o.start as int, o.end as int),
        Err(_) => true,
    }
}

/// Reads the value of type `T` that an outside routine wrote at the
/// address that `ffi_readback_target` gave it. The caller vouches that the
/// routine wrote all of the value.
pub fn readback_from_ffi<T: Plain, S: Slab>(slab: &S) -> (r: Result<T, Error>)
    requires
        slab.wf(),
        readback_ready(slab.spec_base(), slab.bytes(), T::spec_layout()),
    ensures
        match spec_readback_offsets(
            slab.spec_base(),
            slab.bytes().len() as usize,
            T::spec_layout(),
        ) {
            Ok(o) => r.is_ok() && r.unwrap().spec_bytes() == contents(
                slab.bytes(),
                o.start as int,
                T::spec_layout().spec_size() as int,
            ),
            Err(e) => r == Err::<T, Error>(e),
        },
{
    let base = slab.base_ptr();
    let size = slab.size();
    let layout = T::layout();
    let payload_size = layout.size();
    match compute_and_validate_offsets(base, size, 0, layout, 1, false) {
        Ok(offsets) => {
            proof {
                lemma_spec_offsets(base, size, 0, layout, 1, false);
            }
            let data = slab.assume_range_initialized_as_bytes(offsets.start, offsets.end);
            Ok(T::from_bytes(data.as_slice()))
        },
        Err(e) => Err(e),
    }
}

/// Where the `n` values of layout `element` that an outside routine says
/// it wrote lie in a region: the offset of the first and the number of
/// bytes of them all. One value must fit in any case; a count whose bytes
/// run past the region's end is refused as `OutOfMemory`.
pub open spec fn spec_readback_span(base: usize, region_size: usize, element: Layout, n: usize)
    -> Result<(usize, usize), Error> {
    match spec_readback_offsets(base, region_size, element) {
        Err(e) => Err(e),
        Ok(o) => match spec_array_layout(element, n as int) {
            Err(e) => Err(e),
            Ok(claimed) => if o.start + claimed.spec_size() > region_size {
                Err(Error::OutOfMemory)
            } else {
                Ok((o.start, claimed.spec_size()))
            },
        },
    }
}

/// Whether the bytes of the `n` values that an outside routine says it
/// wrote have all been written.
pub open spec fn readback_slice_ready(
    base: usize,
    bytes: Seq<Option<u8>>,
    element: Layout,
    n: usize,
) -> bool {
    match spec_readback_span(base, bytes.len() as usize, element, n) {
        Ok((start, len)) => initialized(bytes, start as int, start + len),
        Err(_) => true,
    }
}

/// Reads the `written_n_of_ts` values of type `T` that an outside routine
/// says it wrote, one after another, from the address that
/// `ffi_readback_target` gave it. The count is checked against the
/// region's size; the caller vouches that the routine wrote that many.
pub fn readback_slice_from_ffi<T: Plain, S: Slab>(slab: &S, written_n_of_ts: usize) -> (r: Result<
    Vec<T>,
    Error,
>)
    requires
        slab.wf(),
        readback_slice_ready(slab.spec_base(), slab.bytes(), T::spec_layout(), written_n_of_ts),
    ensures
        match spec_readback_span(
            slab.spec_base(),
            slab.bytes().len() as usize,
            T::spec_layout(),
            written_n_of_ts,
        ) {
            Ok((start, len)) => r.is_ok() && r.unwrap()@.len() == written_n_of_ts && slice_bytes(
                r.unwrap()@,
            ) == contents(slab.bytes(), start as int, len as int),
            Err(e) => r == Err::<Vec<T>, Error>(e),
        },
{
    let base = slab.base_ptr();
    let size = slab.size();
    let layout = T::layout();
    let payload_size = layout.size();
    let offsets = match compute_and_validate_offsets(base, size, 0, layout, 1, false) {
        Ok(offsets) => offsets,
        Err(e) => {
            return Err(e);
        },
    };
    proof {
        lemma_spec_offsets(base, size, 0, layout, 1, false);
        Layout::lemma_spec_from_size_align(
            layout.spec_size() * written_n_of_ts,
            layout.spec_align() as int,
        );
        assert(layout.spec_size() * written_n_of_ts == written_n_of_ts * layout.spec_size())
            by (nonlinear_arith);
    }
    let layout_claimed_written = match Layout::array(layout, written_n_of_ts) {
        Ok(claimed) => claimed,
        Err(e) => {
            return Err(e);
        },
    };
    let claimed_size = layout_claimed_written.size();
    proof {
        lemma_effective_align(layout, 1);
        lemma_round_up(claimed_size as int, layout.spec_align() as int);
    }
    let end_offset = offsets.start + claimed_size;
    if end_offset > size {
        return Err(Error::OutOfMemory);
    }
    let data = slab.assume_range_initialized_as_bytes(offsets.start, end_offset);
    Ok(values_from_bytes(data.as_slice(), written_n_of_ts))
}

} // verus!
