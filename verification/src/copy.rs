//! Copying payloads into a region.

use crate::error::Error;
use crate::layout::{lemma_round_up, next_power_of_two, round_up, Layout};
use crate::offsets::{
    compute_and_validate_offsets, effective_align, lemma_effective_align, lemma_spec_offsets,
    spec_offsets, ComputedOffsets,
};
use crate::plain::Plain;
use crate::slab::{region_bounds, write_bytes, written, Slab};
use vstd::arithmetic::div_mod::{
    lemma_add_mod_noop, lemma_fundamental_div_mod, lemma_mod_twice, lemma_small_mod,
};
use vstd::arithmetic::power2::is_pow2;
use vstd::prelude::*;
use vstd::std_specs::convert::FromSpecImpl;

verus! {

/// Where a copy put its payload, as byte offsets from the region's base.
#[derive(Debug, Clone, Copy, PartialEq, Eq, Structural)]
pub struct CopyRecord {
    /// Where the first byte was written. It may lie after the offset that
    /// was asked for, where the alignment needed it.
    pub start_offset: usize,
    /// Where writing stopped: the first byte after the payload.
    pub end_offset: usize,
    /// `end_offset` with the padding that brings the payload's size to a
    /// multiple of the alignment it was placed with. Nothing was written
    /// to the padding.
    pub end_offset_padded: usize,
}

impl From<ComputedOffsets> for CopyRecord {
    fn from(offsets: ComputedOffsets) -> (r: Self) {
        CopyRecord {
            start_offset: offsets.start,
            end_offset: offsets.end,
            end_offset_padded: offsets.end_padded,
        }
    }
}

impl FromSpecImpl<ComputedOffsets> for CopyRecord {
    open spec fn obeys_from_spec() -> bool {
        true
    }

    open spec fn from_spec(offsets: ComputedOffsets) -> Self {
        record_of(offsets)
    }
}

/// The record that holds the offsets `offsets`.
pub open spec fn record_of(offsets: ComputedOffsets) -> CopyRecord {
    CopyRecord {
        start_offset: offsets.start,
        end_offset: offsets.end,
        end_offset_padded: offsets.end_padded,
    }
}

/// The record of a copy of a payload of layout `layout` into a region of
/// `size` bytes at `base`, or the error that refuses it.
pub open spec fn spec_copy(
    base: usize,
    size: usize,
    start_offset: usize,
    layout: Layout,
    min_alignment: usize,
    exact: bool,
) -> Result<CopyRecord, Error> {
    match spec_offsets(base, size, start_offset, layout, min_alignment, exact) {
        Ok(offsets) => Ok(record_of(offsets)),
        Err(e) => Err(e),
    }
}

/// The bytes of a region after a copy of `data` that returned `result`:
/// `data` lies from the record's start on, and every other byte is as it
/// was; after an error every byte is as it was.
pub open spec fn bytes_after_copy(
    before: Seq<Option<u8>>,
    result: Result<CopyRecord, Error>,
    data: Seq<u8>,
) -> Seq<Option<u8>> {
    match result {
        Ok(record) => written(before, record.start_offset as int, data),
        Err(_) => before,
    }
}

/// A copy that is refused writes nothing.
pub proof fn lemma_refused_copy_writes_nothing(
    before: Seq<Option<u8>>,
    result: Result<CopyRecord, Error>,
    data: Seq<u8>,
)
    requires
        result.is_err(),
    ensures
        bytes_after_copy(before, result, data) == before,
{
}

/// A copy that is granted writes the payload's bytes and no others: the
/// bytes before the record's start and from its end on, padding included,
/// are as they were.
pub proof fn lemma_copy_touches_payload_only(
    before: Seq<Option<u8>>,
    record: CopyRecord,
    data: Seq<u8>,
    i: int,
)
    requires
        record.end_offset == record.start_offset + data.len(),
        0 <= i < before.len(),
    ensures
        bytes_after_copy(before, Ok(record), data).len() == before.len(),
        record.start_offset <= i < record.end_offset ==> bytes_after_copy(
            before,
            Ok(record),
            data,
        )[i] == Some(data[i - record.start_offset]),
        !(record.start_offset <= i < record.end_offset) ==> bytes_after_copy(
            before,
            Ok(record),
            data,
        )[i] == before[i],
{
}

/// What a copy of `data` leaves behind: the region `after` is `before` with
/// its bytes as `bytes_after_copy` says, at the same address, and `result`
/// is what `spec_copy` gives for the region `before`.
pub open spec fn copied<S: Slab>(
    before: &S,
    after: &S,
    result: Result<CopyRecord, Error>,
    data: Seq<u8>,
    start_offset: usize,
    layout: Layout,
    min_alignment: usize,
    exact: bool,
) -> bool {
    &&& after.wf()
    &&& after.spec_base() == before.spec_base()
    &&& result == spec_copy(
        before.spec_base(),
        before.bytes().len() as usize,
        start_offset,
        layout,
        min_alignment,
        exact,
    )
    &&& after.bytes() == bytes_after_copy(before.bytes(), result, data)
}

/// The layout of `n` payloads of layout `element` that lie one after
/// another, where there is one.
pub open spec fn spec_array_layout(element: Layout, n: int) -> Result<Layout, Error> {
    Layout::spec_from_size_align(element.spec_size() * n, element.spec_align() as int)
}

/// What a copy of a block of `n` payloads of layout `element` leaves
/// behind: what `copied` says for the block's layout, or `InvalidLayout`
/// and an unchanged region where the block has no layout.
pub open spec fn copied_block<S: Slab>(
    before: &S,
    after: &S,
    result: Result<CopyRecord, Error>,
    data: Seq<u8>,
    start_offset: usize,
    element: Layout,
    n: int,
    min_alignment: usize,
    exact: bool,
) -> bool {
    match spec_array_layout(element, n) {
        Ok(layout) => copied(
            before,
            after,
            result,
            data,
            start_offset,
            layout,
            min_alignment,
            exact,
        ),
        Err(e) => {
            &&& after.wf()
            &&& after.spec_base() == before.spec_base()
            &&& after.bytes() == before.bytes()
            &&& result == Err::<CopyRecord, Error>(e)
        },
    }
}

/// The bytes of the values of `s`, one value after another.
pub open spec fn slice_bytes<T: Plain>(s: Seq<T>) -> Seq<u8>
    decreases s.len(),
{
    if s.len() == 0 {
        Seq::empty()
    } else {
        slice_bytes(s.drop_last()) + s.last().spec_bytes()
    }
}

/// `n` values have `n` times the bytes of one.
pub proof fn lemma_slice_bytes_len<T: Plain>(s: Seq<T>)
    ensures
        slice_bytes(s).len() == s.len() * T::spec_layout().spec_size(),
    decreases s.len(),
{
    if s.len() > 0 {
        lemma_slice_bytes_len(s.drop_last());
        s.last().lemma_bytes_len();
        assert(s.len() * T::spec_layout().spec_size() == (s.len() - 1) * T::spec_layout().spec_size()
            + T::spec_layout().spec_size()) by (nonlinear_arith);
    }
}

/// The bytes of the values of `src`, one value after another.
pub fn slice_to_bytes<T: Plain>(src: &[T]) -> (r: Vec<u8>)
    ensures
        r@ == slice_bytes(src@),
{
    let mut out: Vec<u8> = Vec::new();
    let mut i: usize = 0;
    while i < src.len()
        invariant
            i <= src@.len(),
            out@ == slice_bytes(src@.take(i as int)),
        decreases src@.len() - i,
    {
        let mut item = src[i].to_bytes();
        out.append(&mut item);
        i += 1;
        assert(src@.take(i as int).drop_last() =~= src@.take(i - 1));
    }
    assert(src@.take(i as int) =~= src@);
    out
}

/// Copies the bytes `data` of a payload of layout `layout` into `dst`, at
/// the first offset not below `start_offset` that meets the alignment, or
/// at `start_offset` itself where `exact` is set. The placement is checked
/// before any byte is written.
pub fn copy_bytes_to_offset<S: Slab>(
    data: &[u8],
    layout: Layout,
    dst: &mut S,
    start_offset: usize,
    min_alignment: usize,
    exact: bool,
) -> (r: Result<CopyRecord, Error>)
    requires
        old(dst).wf(),
        data@.len() == layout.spec_size(),
    ensures
        copied(old(dst), final(dst), r, data@, start_offset, layout, min_alignment, exact),
{
    let base = dst.base_ptr();
    let size = dst.size();
    let payload_size = layout.size();
    match compute_and_validate_offsets(base, size, start_offset, layout, min_alignment, exact) {
        Ok(offsets) => {
            proof {
                lemma_spec_offsets(base, size, start_offset, layout, min_alignment, exact);
            }
            write_bytes(dst, offsets.start, data);
            Ok(CopyRecord::from(offsets))
        },
        Err(e) => Err(e),
    }
}

/// Copies `src` into `dst` at exactly `start_offset`. Where that offset
/// does not meet the alignment of `T`, nothing is written.
pub fn copy_to_offset_exact<T: Plain, S: Slab>(src: &T, dst: &mut S, start_offset: usize) -> (r:
    Result<CopyRecord, Error>)
    requires
        old(dst).wf(),
    ensures
        copied(
            old(dst),
            final(dst),
            r,
            src.spec_bytes(),
            start_offset,
            T::spec_layout(),
            1,
            true,
        ),
{
    copy_to_offset_with_align_exact(src, dst, start_offset, 1)
}

/// Copies `src` into `dst` at exactly `start_offset`, where the address of
/// that offset is a multiple of the alignment of `T` and of `min_alignment`
/// rounded up to a power of two. Where it is not, nothing is written.
pub fn copy_to_offset_with_align_exact<T: Plain, S: Slab>(
    src: &T,
    dst: &mut S,
    start_offset: usize,
    min_alignment: usize,
) -> (r: Result<CopyRecord, Error>)
    requires
        old(dst).wf(),
    ensures
        copied(
            old(dst),
            final(dst),
            r,
            src.spec_bytes(),
            start_offset,
            T::spec_layout(),
            min_alignment,
            true,
        ),
{
    let data = src.to_bytes();
    proof {
        src.lemma_bytes_len();
    }
    copy_bytes_to_offset(data.as_slice(), T::layout(), dst, start_offset, min_alignment, true)
}

/// Copies `src` into `dst` at the first offset, not below `start_offset`,
/// whose address meets the alignment of `T`. The record says where.
pub fn copy_to_offset<T: Plain, S: Slab>(src: &T, dst: &mut S, start_offset: usize) -> (r: Result<
    CopyRecord,
    Error,
>)
    requires
        old(dst).wf(),
    ensures
        copied(
            old(dst),
            final(dst),
            r,
            src.spec_bytes(),
            start_offset,
            T::spec_layout(),
            1,
            false,
        ),
{
    copy_to_offset_with_align(src, dst, start_offset, 1)
}

/// Copies `src` into `dst` at the first offset, not below `start_offset`,
/// whose address is a multiple of the alignment of `T` and of
/// `min_alignment` rounded up to a power of two. The record says where.
pub fn copy_to_offset_with_align<T: Plain, S: Slab>(
    src: &T,
    dst: &mut S,
    start_offset: usize,
    min_alignment: usize,
) -> (r: Result<CopyRecord, Error>)
    requires
        old(dst).wf(),
    ensures
        copied(
            old(dst),
            final(dst),
            r,
            src.spec_bytes(),
            start_offset,
            T::spec_layout(),
            min_alignment,
            false,
        ),
{
    let data = src.to_bytes();
    proof {
        src.lemma_bytes_len();
    }
    copy_bytes_to_offset(data.as_slice(), T::layout(), dst, start_offset, min_alignment, false)
}

/// Copies the values of `src` as one block, with nothing between them, into
/// `dst`, by the placement rule of `copy_bytes_to_offset`.
fn copy_block<T: Plain, S: Slab>(
    src: &[T],
    dst: &mut S,
    start_offset: usize,
    min_alignment: usize,
    exact: bool,
) -> (r: Result<CopyRecord, Error>)
    requires
        old(dst).wf(),
    ensures
        copied_block(
            old(dst),
            final(dst),
            r,
            slice_bytes(src@),
            start_offset,
            T::spec_layout(),
            src@.len() as int,
            min_alignment,
            exact,
        ),
{
    let layout = match Layout::array(T::layout(), src.len()) {
        Ok(l) => l,
        Err(e) => {
            return Err(e);
        },
    };
    let data = slice_to_bytes(src);
    proof {
        lemma_slice_bytes_len(src@);
        Layout::lemma_spec_from_size_align(
            T::spec_layout().spec_size() * src@.len(),
            T::spec_layout().spec_align() as int,
        );
    }
    copy_bytes_to_offset(data.as_slice(), layout, dst, start_offset, min_alignment, exact)
}

/// Copies the values of `src` as one block into `dst` at exactly
/// `start_offset`. Where that offset does not meet the alignment of `T`,
/// nothing is written.
pub fn copy_from_slice_to_offset_exact<T: Plain, S: Slab>(
    src: &[T],
    dst: &mut S,
    start_offset: usize,
) -> (r: Result<CopyRecord, Error>)
    requires
        old(dst).wf(),
    ensures
        copied_block(
            old(dst),
            final(dst),
            r,
            slice_bytes(src@),
            start_offset,
            T::spec_layout(),
            src@.len() as int,
            1,
            true,
        ),
{
    copy_from_slice_to_offset_with_align_exact(src, dst, start_offset, 1)
}

/// Copies the values of `src` as one block into `dst` at exactly
/// `start_offset`, where the address of that offset is a multiple of the
/// alignment of `T` and of `min_alignment` rounded up to a power of two.
/// `min_alignment` bears on the block's start alone: the values lie one
/// after another.
pub fn copy_from_slice_to_offset_with_align_exact<T: Plain, S: Slab>(
    src: &[T],
    dst: &mut S,
    start_offset: usize,
    min_alignment: usize,
) -> (r: Result<CopyRecord, Error>)
    requires
        old(dst).wf(),
    ensures
        copied_block(
            old(dst),
            final(dst),
            r,
            slice_bytes(src@),
            start_offset,
            T::spec_layout(),
            src@.len() as int,
            min_alignment,
            true,
        ),
{
    copy_block(src, dst, start_offset, min_alignment, true)
}

/// Copies the values of `src` as one block into `dst` at the first offset,
/// not below `start_offset`, whose address meets the alignment of `T`.
pub fn copy_from_slice_to_offset<T: Plain, S: Slab>(
    src: &[T],
    dst: &mut S,
    start_offset: usize,
) -> (r: Result<CopyRecord, Error>)
    requires
        old(dst).wf(),
    ensures
        copied_block(
            old(dst),
            final(dst),
            r,
            slice_bytes(src@),
            start_offset,
            T::spec_layout(),
            src@.len() as int,
            1,
            false,
        ),
{
    copy_from_slice_to_offset_with_align(src, dst, start_offset, 1)
}

/// Copies the values of `src` as one block into `dst` at the first offset,
/// not below `start_offset`, whose address is a multiple of the alignment
/// of `T` and of `min_alignment` rounded up to a power of two.
/// `min_alignment` bears on the block's start alone: the values lie one
/// after another.
pub fn copy_from_slice_to_offset_with_align<T: Plain, S: Slab>(
    src: &[T],
    dst: &mut S,
    start_offset: usize,
    min_alignment: usize,
) -> (r: Result<CopyRecord, Error>)
    requires
        old(dst).wf(),
    ensures
        copied_block(
            old(dst),
            final(dst),
            r,
            slice_bytes(src@),
            start_offset,
            T::spec_layout(),
            src@.len() as int,
            min_alignment,
            false,
        ),
{
    copy_block(src, dst, start_offset, min_alignment, false)
}

/// How far a copy of values one by one has come: the records of the
/// values copied so far, the error that stopped it, if any, the offset at
/// which the next value is to be placed, and the region's bytes.
pub struct Progress {
    /// The records of the values copied so far, in order.
    pub records: Seq<CopyRecord>,
    /// The error that refused a value. No value after that one is copied.
    pub error: Option<Error>,
    /// The end of the last value copied, or the offset asked for where
    /// none was.
    pub cursor: usize,
    /// The region's bytes.
    pub bytes: Seq<Option<u8>>,
}

/// Copies `items` one by one into a region with bytes `before` at `base`:
/// the first at or after `start_offset`, each later one at or after the
/// end of the one before it, each by the placement rule with the floor
/// `min_alignment`. Copying stops at the first value that is refused; the
/// values before it stay written.
pub open spec fn spec_copy_each<T: Plain>(
    base: usize,
    before: Seq<Option<u8>>,
    start_offset: usize,
    min_alignment: usize,
    items: Seq<T>,
) -> Progress
    decreases items.len(),
{
    if items.len() == 0 {
        Progress { records: Seq::empty(), error: None, cursor: start_offset, bytes: before }
    } else {
        let so_far = spec_copy_each(base, before, start_offset, min_alignment, items.drop_last());
        if so_far.error.is_some() {
            so_far
        } else {
            match spec_copy(
                base,
                before.len() as usize,
                so_far.cursor,
                T::spec_layout(),
                min_alignment,
                false,
            ) {
                Ok(record) => Progress {
                    records: so_far.records.push(record),
                    error: None,
                    cursor: record.end_offset,
                    bytes: written(
                        so_far.bytes,
                        record.start_offset as int,
                        items.last().spec_bytes(),
                    ),
                },
                Err(e) => Progress {
                    records: so_far.records,
                    error: Some(e),
                    cursor: so_far.cursor,
                    bytes: so_far.bytes,
                },
            }
        }
    }
}

/// Copies the values of `src` one by one into `dst`, each at the first
/// offset, not below the end of the one before it, whose address is a
/// multiple of the alignment of `T` and of `min_alignment` rounded up to a
/// power of two; the first not below `start_offset`. Returns one record for
/// each value, or the error that refused one of them: the values before
/// that one have been written.
pub fn copy_from_iter_to_offset_with_align<T: Plain, S: Slab>(
    src: &[T],
    dst: &mut S,
    start_offset: usize,
    min_alignment: usize,
) -> (r: Result<Vec<CopyRecord>, Error>)
    requires
        old(dst).wf(),
    ensures
        final(dst).wf(),
        final(dst).spec_base() == old(dst).spec_base(),
        ({
            let end = spec_copy_each(
                old(dst).spec_base(),
                old(dst).bytes(),
                start_offset,
                min_alignment,
                src@,
            );
            &&& final(dst).bytes() == end.bytes
            &&& match end.error {
                Some(e) => r == Err::<Vec<CopyRecord>, Error>(e),
                None => r.is_ok() && r.unwrap()@ == end.records,
            }
        }),
{
    let mut offset: usize = start_offset;
    let mut records: Vec<CopyRecord> = Vec::new();
    let mut i: usize = 0;
    let ghost base = dst.spec_base();
    let ghost before = dst.bytes();
    while i < src.len()
        invariant
            i <= src@.len(),
            dst.wf(),
            base == old(dst).spec_base(),
            before == old(dst).bytes(),
            dst.spec_base() == base,
            dst.bytes().len() == before.len(),
            spec_copy_each(base, before, start_offset, min_alignment, src@.take(i as int))
                == (Progress { records: records@, error: None, cursor: offset, bytes: dst.bytes() }),
        decreases src@.len() - i,
    {
        assert(src@.take(i + 1).drop_last() =~= src@.take(i as int));
        assert(src@.take(i + 1).last() == src@[i as int]);
        match copy_to_offset_with_align(&src[i], dst, offset, min_alignment) {
            Ok(record) => {
                offset = record.end_offset;
                records.push(record);
            },
            Err(e) => {
                proof {
                    lemma_copy_each_stops(
                        base,
                        before,
                        start_offset,
                        min_alignment,
                        src@,
                        i + 1,
                    );
                }
                return Err(e);
            },
        }
        i += 1;
    }
    assert(src@.take(i as int) =~= src@);
    Ok(records)
}

/// Once a value has been refused, the values after it change nothing.
pub proof fn lemma_copy_each_stops<T: Plain>(
    base: usize,
    before: Seq<Option<u8>>,
    start_offset: usize,
    min_alignment: usize,
    items: Seq<T>,
    n: int,
)
    requires
        0 <= n <= items.len(),
        spec_copy_each(base, before, start_offset, min_alignment, items.take(n)).error.is_some(),
    ensures
        spec_copy_each(base, before, start_offset, min_alignment, items) == spec_copy_each(
            base,
            before,
            start_offset,
            min_alignment,
            items.take(n),
        ),
    decreases items.len(),
{
    if n < items.len() {
        assert(items.drop_last().take(n) =~= items.take(n));
        lemma_copy_each_stops(base, before, start_offset, min_alignment, items.drop_last(), n);
    } else {
        assert(items.take(n) =~= items);
    }
}

/// The offset at which value `j` of a copy of values one by one is to be
/// placed: the offset asked for, or the end of the value before it.
pub open spec fn cursor_before(records: Seq<CopyRecord>, start_offset: usize, j: int) -> usize {
    if j == 0 {
        start_offset
    } else {
        records[j - 1].end_offset
    }
}

/// A copy of values one by one that was not refused has one record for
/// each value, and each record is what `spec_copy` gives at the end of the
/// value before it.
pub proof fn lemma_copy_each_records<T: Plain>(
    base: usize,
    before: Seq<Option<u8>>,
    start_offset: usize,
    min_alignment: usize,
    items: Seq<T>,
)
    requires
        spec_copy_each(base, before, start_offset, min_alignment, items).error.is_none(),
    ensures
        ({
            let end = spec_copy_each(base, before, start_offset, min_alignment, items);
            &&& end.records.len() == items.len()
            &&& end.bytes.len() == before.len()
            &&& end.cursor == cursor_before(end.records, start_offset, items.len() as int)
            &&& forall|j: int|
                0 <= j < items.len() ==> Ok::<CopyRecord, Error>(#[trigger] end.records[j])
                    == spec_copy(
                    base,
                    before.len() as usize,
                    cursor_before(end.records, start_offset, j),
                    T::spec_layout(),
                    min_alignment,
                    false,
                )
        }),
    decreases items.len(),
{
    if items.len() > 0 {
        lemma_copy_each_records(base, before, start_offset, min_alignment, items.drop_last());
    }
}

/// Rounding up commutes with adding a multiple of the alignment.
pub proof fn lemma_round_up_shift(x: int, y: int, align: int)
    requires
        align > 0,
        x % align == 0,
    ensures
        round_up(x + y, align) == x + round_up(y, align),
{
    lemma_add_mod_noop(x, y, align);
    lemma_mod_twice(y, align);
}

/// In a copy of values one by one that was not refused, each value but the
/// first starts at the padded end of the one before it: between two values
/// lies the padding that brings the size of `T` to a multiple of the
/// effective alignment, and nothing else.
pub proof fn lemma_copy_each_spacing<T: Plain>(
    base: usize,
    before: Seq<Option<u8>>,
    start_offset: usize,
    min_alignment: usize,
    items: Seq<T>,
    i: int,
)
    requires
        spec_copy_each(base, before, start_offset, min_alignment, items).error.is_none(),
        0 <= i,
        i + 1 < items.len(),
    ensures
        ({
            let records = spec_copy_each(base, before, start_offset, min_alignment, items).records;
            let size = T::spec_layout().spec_size() as int;
            let align = effective_align(T::spec_layout(), min_alignment);
            &&& records.len() == items.len()
            &&& records[i + 1].start_offset == records[i].end_offset_padded
            &&& records[i].end_offset == records[i].start_offset + size
            &&& records[i].end_offset_padded == records[i].start_offset + round_up(size, align)
        }),
{
    let layout = T::spec_layout();
    let records = spec_copy_each(base, before, start_offset, min_alignment, items).records;
    let region_size = before.len() as usize;
    let align = effective_align(layout, min_alignment);
    T::lemma_layout();
    lemma_copy_each_records(base, before, start_offset, min_alignment, items);
    lemma_effective_align(layout, min_alignment);
    let here = cursor_before(records, start_offset, i);
    let next = cursor_before(records, start_offset, i + 1);
    assert(Ok::<CopyRecord, Error>(records[i]) == spec_copy(
        base,
        region_size,
        here,
        layout,
        min_alignment,
        false,
    ));
    assert(Ok::<CopyRecord, Error>(records[i + 1]) == spec_copy(
        base,
        region_size,
        next,
        layout,
        min_alignment,
        false,
    ));
    lemma_spec_offsets(base, region_size, here, layout, min_alignment, false);
    lemma_spec_offsets(base, region_size, next, layout, min_alignment, false);
    lemma_round_up_shift(base + records[i].start_offset, layout.spec_size() as int, align);
}

/// How many of `n` values of `elem_size` bytes each, placed one after
/// another from `start` on, lie within a region of `region_size` bytes.
pub open spec fn packed_count(start: int, elem_size: int, region_size: int, n: int) -> int {
    if elem_size == 0 || start + n * elem_size <= region_size {
        n
    } else {
        (region_size - start) / elem_size
    }
}

/// What a packed copy of `items` returns, and the bytes it leaves in a
/// region with bytes `before` at `base`. The first value is placed as
/// `spec_copy` says; the others follow it with nothing between them, as
/// long as they lie within the region. The record spans all of them;
/// where one does not fit the copy is refused as `OutOfMemory`, and the
/// values before that one stay written.
pub open spec fn spec_copy_packed<T: Plain>(
    base: usize,
    before: Seq<Option<u8>>,
    start_offset: usize,
    min_alignment: usize,
    exact: bool,
    items: Seq<T>,
) -> (Result<Option<CopyRecord>, Error>, Seq<Option<u8>>) {
    if items.len() == 0 {
        (Ok(None), before)
    } else {
        match spec_copy(
            base,
            before.len() as usize,
            start_offset,
            T::spec_layout(),
            min_alignment,
            exact,
        ) {
            Err(e) => (Err(e), before),
            Ok(first) => {
                let size = T::spec_layout().spec_size() as int;
                let start = first.start_offset as int;
                let n = items.len() as int;
                let fit = packed_count(start, size, before.len() as int, n);
                let bytes = written(before, start, slice_bytes(items.take(fit)));
                if fit == n {
                    (
                        Ok(
                            Some(
                                CopyRecord {
                                    start_offset: first.start_offset,
                                    end_offset: (start + n * size) as usize,
                                    end_offset_padded: if n == 1 {
                                        first.end_offset_padded
                                    } else {
                                        (start + n * size) as usize
                                    },
                                },
                            ),
                        ),
                        bytes,
                    )
                } else {
                    (Err(Error::OutOfMemory), bytes)
                }
            },
        }
    }
}

/// A packed copy that is granted leaves no gap: its record ends as many
/// bytes after its start as the values have, it lies within the region,
/// and the region holds the values' bytes from the record's start on, one
/// value after another.
pub proof fn lemma_packed_has_no_gaps<T: Plain>(
    base: usize,
    before: Seq<Option<u8>>,
    start_offset: usize,
    min_alignment: usize,
    exact: bool,
    items: Seq<T>,
)
    requires
        before.len() <= usize::MAX,
        spec_copy_packed(base, before, start_offset, min_alignment, exact, items).0.is_ok(),
        items.len() > 0,
    ensures
        ({
            let (result, bytes) = spec_copy_packed(
                base,
                before,
                start_offset,
                min_alignment,
                exact,
                items,
            );
            let record = result.unwrap().unwrap();
            &&& result.unwrap().is_some()
            &&& record.start_offset >= start_offset
            &&& record.end_offset == record.start_offset + items.len()
                * T::spec_layout().spec_size()
            &&& record.end_offset <= record.end_offset_padded <= before.len()
            &&& bytes == written(before, record.start_offset as int, slice_bytes(items))
        }),
{
    let layout = T::spec_layout();
    let size = layout.spec_size() as int;
    let region_size = before.len() as usize;
    T::lemma_layout();
    lemma_spec_offsets(base, region_size, start_offset, layout, min_alignment, exact);
    lemma_effective_align(layout, min_alignment);
    lemma_round_up(size, effective_align(layout, min_alignment));
    let n = items.len() as int;
    let start = spec_copy(
        base,
        region_size,
        start_offset,
        layout,
        min_alignment,
        exact,
    ).unwrap().start_offset as int;
    assert(items.take(n) =~= items);
    assert(n * size >= size) by (nonlinear_arith)
        requires
            n >= 1,
            size >= 0,
    ;
    if size == 0 {
        assert(n * size == 0) by (nonlinear_arith)
            requires
                size == 0,
        ;
    } else if start + n * size > region_size {
        let room = region_size - start;
        lemma_fundamental_div_mod(room, size);
        assert(false) by (nonlinear_arith)
            requires
                size > 0,
                room / size == n,
                n * size > room,
                room == size * (room / size) + room % size,
                0 <= room % size,
        ;
    }
}

/// A value placed right after another of its type, with floor 1, starts
/// where that one ends, in either mode, and is refused only where it would
/// run past the region's end.
pub proof fn lemma_packed_next(
    base: usize,
    region_size: usize,
    prev_end: usize,
    layout: Layout,
    exact: bool,
)
    requires
        layout.valid(),
        layout.spec_size() % layout.spec_align() == 0,
        (base + prev_end) % (layout.spec_align() as int) == 0,
        prev_end <= region_size,
        region_bounds(base as int, region_size as int),
    ensures
        prev_end + layout.spec_size() <= usize::MAX,
        (base + prev_end + layout.spec_size()) % (layout.spec_align() as int) == 0,
        spec_offsets(base, region_size, prev_end, layout, 1, exact) == (if prev_end
            + layout.spec_size() <= region_size {
            Ok(
                ComputedOffsets {
                    start: prev_end,
                    end: (prev_end + layout.spec_size()) as usize,
                    end_padded: (prev_end + layout.spec_size()) as usize,
                },
            )
        } else {
            Err(Error::OutOfMemory)
        }),
{
    let align = layout.spec_align() as int;
    reveal(is_pow2);
    assert(next_power_of_two(1) == 1);
    assert(effective_align(layout, 1) == align);
    assert(round_up(base + prev_end, align) == base + prev_end);
    assert(round_up(layout.spec_size() as int, align) == layout.spec_size());
    lemma_add_mod_noop(base + prev_end, layout.spec_size() as int, align);
    lemma_small_mod(0, align as nat);
}

/// Writing `second` right after `first` is writing the two as one.
pub proof fn lemma_written_twice(
    bytes: Seq<Option<u8>>,
    start: int,
    first: Seq<u8>,
    second: Seq<u8>,
)
    requires
        0 <= start,
    ensures
        written(written(bytes, start, first), start + first.len(), second) == written(
            bytes,
            start,
            first + second,
        ),
{
    assert(written(written(bytes, start, first), start + first.len(), second) =~= written(
        bytes,
        start,
        first + second,
    ));
}

/// Copies the values of `src` into `dst` with nothing between them. The
/// first is placed by the rule, in the mode `exact` and with the floor
/// `min_alignment`; each later one right after the one before it.
fn copy_packed<T: Plain, S: Slab>(
    src: &[T],
    dst: &mut S,
    start_offset: usize,
    min_alignment: usize,
    exact: bool,
) -> (r: Result<Option<CopyRecord>, Error>)
    requires
        old(dst).wf(),
    ensures
        final(dst).wf(),
        final(dst).spec_base() == old(dst).spec_base(),
        (r, final(dst).bytes()) == spec_copy_packed(
            old(dst).spec_base(),
            old(dst).bytes(),
            start_offset,
            min_alignment,
            exact,
            src@,
        ),
{
    if src.len() == 0 {
        return Ok(None);
    }
    let base = dst.base_ptr();
    let region_size = dst.size();
    let layout = T::layout();
    let size = layout.size();
    let ghost before = dst.bytes();
    let ghost n = src@.len() as int;
    let first_data = src[0].to_bytes();
    proof {
        src@[0].lemma_bytes_len();
    }
    let first_record = match copy_bytes_to_offset(
        first_data.as_slice(),
        layout,
        dst,
        start_offset,
        min_alignment,
        exact,
    ) {
        Ok(record) => record,
        Err(e) => {
            return Err(e);
        },
    };
    let ghost start = first_record.start_offset as int;
    proof {
        T::lemma_layout();
        src@[0].lemma_bytes_len();
        lemma_spec_offsets(base, region_size, start_offset, layout, min_alignment, exact);
        lemma_effective_align(layout, min_alignment);
        lemma_round_up(size as int, effective_align(layout, min_alignment));
        lemma_add_mod_noop(base + start, size as int, layout.spec_align() as int);
        lemma_small_mod(0, layout.spec_align() as nat);
        assert(src@.take(1).drop_last() =~= Seq::<T>::empty());
        assert(src@.take(1).last() == src@[0]);
        assert(slice_bytes(Seq::<T>::empty()) =~= Seq::<u8>::empty());
        assert(slice_bytes(src@.take(1)) =~= src@[0].spec_bytes());
    }
    let mut prev_record = first_record;
    let mut i: usize = 1;
    while i < src.len()
        invariant
            1 <= i <= n == src@.len(),
            dst.wf(),
            layout == T::spec_layout(),
            layout.valid(),
            size == layout.spec_size(),
            size % layout.spec_align() == 0,
            base == old(dst).spec_base() == dst.spec_base(),
            before == old(dst).bytes(),
            region_size == before.len() == dst.bytes().len(),
            region_bounds(base as int, region_size as int),
            spec_copy(base, region_size, start_offset, layout, min_alignment, exact) == Ok::<
                CopyRecord,
                Error,
            >(first_record),
            start == first_record.start_offset,
            prev_record.start_offset >= start,
            prev_record.end_offset == start + i * size,
            prev_record.end_offset <= region_size,
            prev_record.end_offset_padded == (if i == 1 {
                first_record.end_offset_padded
            } else {
                prev_record.end_offset
            }),
            (base + prev_record.end_offset) % (layout.spec_align() as int) == 0,
            dst.bytes() == written(before, start, slice_bytes(src@.take(i as int))),
        decreases n - i,
    {
        let data = src[i].to_bytes();
        proof {
            src@[i as int].lemma_bytes_len();
            lemma_packed_next(base, region_size, prev_record.end_offset, layout, exact);
            lemma_slice_bytes_len(src@.take(i as int));
            lemma_written_twice(
                before,
                start,
                slice_bytes(src@.take(i as int)),
                src@[i as int].spec_bytes(),
            );
            assert(src@.take(i + 1).drop_last() =~= src@.take(i as int));
            assert((i + 1) * size == i * size + size) by (nonlinear_arith);
        }
        match copy_bytes_to_offset(data.as_slice(), layout, dst, prev_record.end_offset, 1, exact) {
            Ok(record) => {
                prev_record = record;
            },
            Err(e) => {
                proof {
                    let room = region_size - start;
                    assert(n * size >= (i + 1) * size) by (nonlinear_arith)
                        requires
                            n >= i + 1,
                            size >= 0,
                    ;
                    lemma_fundamental_div_mod(room, size as int);
                    assert(room / (size as int) == i) by (nonlinear_arith)
                        requires
                            size > 0,
                            i * size <= room < (i + 1) * size,
                            room == size * (room / (size as int)) + room % (size as int),
                            0 <= room % (size as int) < size,
                    ;
                }
                return Err(e);
            },
        }
        i += 1;
    }
    proof {
        assert(src@.take(i as int) =~= src@);
    }
    Ok(
        Some(
            CopyRecord {
                start_offset: first_record.start_offset,
                end_offset: prev_record.end_offset,
                end_offset_padded: prev_record.end_offset_padded,
            },
        ),
    )
}

/// Copies the values of `src` into `dst` with nothing between them: the
/// first at the first offset, not below `start_offset`, whose address is a
/// multiple of the alignment of `T` and of `min_alignment` rounded up to a
/// power of two; each later one right after the one before it, whatever
/// `min_alignment` is. Returns one record for the whole, or `None` where
/// `src` is empty.
pub fn copy_from_iter_to_offset_with_align_packed<T: Plain, S: Slab>(
    src: &[T],
    dst: &mut S,
    start_offset: usize,
    min_alignment: usize,
) -> (r: Result<Option<CopyRecord>, Error>)
    requires
        old(dst).wf(),
    ensures
        final(dst).wf(),
        final(dst).spec_base() == old(dst).spec_base(),
        (r, final(dst).bytes()) == spec_copy_packed(
            old(dst).spec_base(),
            old(dst).bytes(),
            start_offset,
            min_alignment,
            false,
            src@,
        ),
{
    copy_packed(src, dst, start_offset, min_alignment, false)
}

/// As `copy_from_iter_to_offset_with_align_packed`, but the first value
/// lies at exactly `start_offset`: where that offset does not meet the
/// alignment, nothing is written.
pub fn copy_from_iter_to_offset_with_align_exact_packed<T: Plain, S: Slab>(
    src: &[T],
    dst: &mut S,
    start_offset: usize,
    min_alignment: usize,
) -> (r: Result<Option<CopyRecord>, Error>)
    requires
        old(dst).wf(),
    ensures
        final(dst).wf(),
        final(dst).spec_base() == old(dst).spec_base(),
        (r, final(dst).bytes()) == spec_copy_packed(
            old(dst).spec_base(),
            old(dst).bytes(),
            start_offset,
            min_alignment,
            true,
            src@,
        ),
{
    copy_packed(src, dst, start_offset, min_alignment, true)
}

} // verus!
