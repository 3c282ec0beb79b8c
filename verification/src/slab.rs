//! Regions of bytes, and the providers of them.

use crate::layout::{lemma_round_up, Layout};
use vstd::arithmetic::div_mod::{lemma_mod_self_0, lemma_small_mod};
use vstd::arithmetic::power2::is_pow2;
use vstd::prelude::*;

verus! {

/// Whether a region of `size` bytes at address `base` ends within the
/// address space and holds no more bytes than an `isize` counts.
pub open spec fn region_bounds(base: int, size: int) -> bool {
    size <= isize::MAX && base + size <= usize::MAX
}

/// Whether every byte of `bytes` from `start` up to `end` has been written.
pub open spec fn initialized(bytes: Seq<Option<u8>>, start: int, end: int) -> bool {
    forall|i: int| start <= i < end ==> (#[trigger] bytes[i]).is_some()
}

/// The values of the `len` bytes of `bytes` from `start` on.
pub open spec fn contents(bytes: Seq<Option<u8>>, start: int, len: int) -> Seq<u8> {
    Seq::new(len as nat, |i: int| bytes[start + i].unwrap())
}

/// `bytes` after `data` has been written over it from `start` on.
pub open spec fn written(bytes: Seq<Option<u8>>, start: int, data: Seq<u8>) -> Seq<Option<u8>> {
    Seq::new(
        bytes.len(),
        |i: int|
            if start <= i < start + data.len() {
                Some(data[i - start])
            } else {
                bytes[i]
            },
    )
}

/// A run of bytes at some address. Each byte holds a value once it has been
/// written; before that it holds none.
pub trait Slab {
    /// The address of the first byte.
    spec fn spec_base(&self) -> usize;

    /// The bytes: `Some` for a written byte, `None` for an unwritten one.
    spec fn bytes(&self) -> Seq<Option<u8>>;

    /// What holds of every region: `region_bounds`, and what else the
    /// provider needs.
    spec fn wf(&self) -> bool;

    /// The address of the first byte.
    fn base_ptr(&self) -> (r: usize)
        requires
            self.wf(),
        ensures
            r == self.spec_base(),
    ;

    /// The number of bytes.
    fn size(&self) -> (r: usize)
        requires
            self.wf(),
        ensures
            r == self.bytes().len(),
            region_bounds(self.spec_base() as int, r as int),
    ;

    /// The bytes, written or not.
    fn as_maybe_uninit_bytes(&self) -> (r: &[Option<u8>])
        requires
            self.wf(),
        ensures
            r@ == self.bytes(),
    ;

    /// Writes `value` to the byte at `index` and leaves the others as they
    /// were.
    fn write_byte(&mut self, index: usize, value: u8)
        requires
            old(self).wf(),
            index < old(self).bytes().len(),
        ensures
            final(self).wf(),
            final(self).spec_base() == old(self).spec_base(),
            final(self).bytes() == old(self).bytes().update(index as int, Some(value)),
    ;

    /// The values of the bytes from `start` up to `end`, all of which have
    /// been written.
    fn assume_range_initialized_as_bytes(&self, start: usize, end: usize) -> (r: Vec<u8>)
        requires
            self.wf(),
            start <= end <= self.bytes().len(),
            initialized(self.bytes(), start as int, end as int),
        ensures
            r@ == contents(self.bytes(), start as int, end - start),
    {
        let all = self.as_maybe_uninit_bytes();
        let mut out: Vec<u8> = Vec::new();
        let mut i: usize = start;
        while i < end
            invariant
                all@ == self.bytes(),
                initialized(self.bytes(), start as int, end as int),
                start <= i <= end <= all@.len(),
                out@ == contents(self.bytes(), start as int, i - start),
            decreases end - i,
        {
            match all[i] {
                Some(b) => out.push(b),
                None => {},
            }
            i += 1;
            assert(out@ =~= contents(self.bytes(), start as int, i - start));
        }
        out
    }

    /// The values of all the bytes of a region that has been written in
    /// full.
    fn assume_initialized_as_bytes(&self) -> (r: Vec<u8>)
        requires
            self.wf(),
            initialized(self.bytes(), 0, self.bytes().len() as int),
        ensures
            r@ == contents(self.bytes(), 0, self.bytes().len() as int),
    {
        let n = self.size();
        self.assume_range_initialized_as_bytes(0, n)
    }

    /// The address and the length of the bytes from `start` up to `end`, for
    /// a routine that reads them or fills them in.
    fn as_ffi_buffer(&self, start: usize, end: usize) -> (r: (usize, usize))
        requires
            self.wf(),
            start <= end <= self.bytes().len(),
        ensures
            r.0 == self.spec_base() + start,
            r.1 == end - start,
    {
        let n = self.size();
        (self.base_ptr() + start, end - start)
    }
}

/// Writes `data` over the bytes of `dst` from `start` on.
pub fn write_bytes<S: Slab>(dst: &mut S, start: usize, data: &[u8])
    requires
        old(dst).wf(),
        start + data@.len() <= old(dst).bytes().len(),
    ensures
        final(dst).wf(),
        final(dst).spec_base() == old(dst).spec_base(),
        final(dst).bytes() == written(old(dst).bytes(), start as int, data@),
{
    let mut i: usize = 0;
    let size = dst.size();
    assert(dst.bytes() =~= written(old(dst).bytes(), start as int, data@.take(0)));
    while i < data.len()
        invariant
            dst.wf(),
            dst.spec_base() == old(dst).spec_base(),
            i <= data@.len(),
            start + data@.len() <= old(dst).bytes().len() == size,
            dst.bytes() == written(old(dst).bytes(), start as int, data@.take(i as int)),
        decreases data@.len() - i,
    {
        dst.write_byte(start + i, data[i]);
        i += 1;
        assert(dst.bytes() =~= written(old(dst).bytes(), start as int, data@.take(i as int)));
    }
    assert(data@.take(i as int) =~= data@);
}

/// The address and the size of a region whose bytes another party holds.
pub struct RawAllocation {
    /// The address of the first byte.
    pub base_ptr: usize,
    /// The number of bytes.
    pub size: usize,
}

impl RawAllocation {
    /// The allocation of `size` bytes at address `base_ptr`.
    pub fn from_raw_parts(base_ptr: usize, size: usize) -> (r: Self)
        ensures
            r.base_ptr == base_ptr,
            r.size == size,
    {
        Self { base_ptr, size }
    }

    /// The allocation as a region, for as long as the caller alone uses it.
    /// Nothing is known of what the allocation holds, so every byte of the
    /// region counts as unwritten.
    pub fn borrow_as_slab(&mut self) -> (r: BorrowedRawAllocation)
        requires
            region_bounds(old(self).base_ptr as int, old(self).size as int),
        ensures
            *final(self) == *old(self),
            r.wf(),
            r.spec_base() == old(self).base_ptr,
            r.bytes() == Seq::new(old(self).size as nat, |i: int| None::<u8>),
    {
        BorrowedRawAllocation { base_ptr: self.base_ptr, bytes: unwritten(self.size) }
    }
}

/// `size` unwritten bytes.
fn unwritten(size: usize) -> (r: Vec<Option<u8>>)
    ensures
        r@ == Seq::new(size as nat, |i: int| None::<u8>),
{
    let mut bytes: Vec<Option<u8>> = Vec::new();
    let mut i: usize = 0;
    while i < size
        invariant
            i <= size,
            bytes@ == Seq::new(i as nat, |j: int| None::<u8>),
        decreases size - i,
    {
        bytes.push(None);
        i += 1;
        assert(bytes@ =~= Seq::new(i as nat, |j: int| None::<u8>));
    }
    bytes
}

/// A raw allocation while one caller alone uses it as a region.
pub struct BorrowedRawAllocation {
    base_ptr: usize,
    bytes: Vec<Option<u8>>,
}

impl Slab for BorrowedRawAllocation {
    closed spec fn spec_base(&self) -> usize {
        self.base_ptr
    }

    closed spec fn bytes(&self) -> Seq<Option<u8>> {
        self.bytes@
    }

    closed spec fn wf(&self) -> bool {
        region_bounds(self.base_ptr as int, self.bytes@.len() as int)
    }

    fn base_ptr(&self) -> (r: usize) {
        self.base_ptr
    }

    fn size(&self) -> (r: usize) {
        assert(self.wf() && self.spec_base() == self.base_ptr);
        self.bytes.len()
    }

    fn as_maybe_uninit_bytes(&self) -> (r: &[Option<u8>]) {
        self.bytes.as_slice()
    }

    fn write_byte(&mut self, index: usize, value: u8) {
        self.bytes.set(index, Some(value));
    }
}

/// A region that owns its bytes, all unwritten at first.
pub struct HeapSlab {
    base_ptr: usize,
    bytes: Vec<Option<u8>>,
}

impl HeapSlab {
    /// A region of the size of `layout`, at an address that is a multiple
    /// of its alignment, with every byte unwritten.
    pub fn new(layout: Layout) -> (r: Self)
        requires
            layout.spec_size() > 0,
        ensures
            r.wf(),
            r.spec_base() % layout.spec_align() == 0,
            r.bytes() == Seq::new(layout.spec_size() as nat, |i: int| None::<u8>),
    {
        let size = layout.size();
        let align = layout.align();
        proof {
            reveal(is_pow2);
            lemma_round_up(size as int, align as int);
            let padded = layout.spec_padded_size();
            if padded < align {
                lemma_small_mod(padded as nat, align as nat);
            }
            lemma_mod_self_0(align as int);
        }
        let r = Self { base_ptr: align, bytes: unwritten(size) };
        assert(region_bounds(r.base_ptr as int, r.bytes@.len() as int));
        r
    }
}

impl Slab for HeapSlab {
    closed spec fn spec_base(&self) -> usize {
        self.base_ptr
    }

    closed spec fn bytes(&self) -> Seq<Option<u8>> {
        self.bytes@
    }

    closed spec fn wf(&self) -> bool {
        region_bounds(self.base_ptr as int, self.bytes@.len() as int)
    }

    fn base_ptr(&self) -> (r: usize) {
        self.base_ptr
    }

    fn size(&self) -> (r: usize) {
        assert(self.wf() && self.spec_base() == self.base_ptr);
        self.bytes.len()
    }

    fn as_maybe_uninit_bytes(&self) -> (r: &[Option<u8>]) {
        self.bytes.as_slice()
    }

    fn write_byte(&mut self, index: usize, value: u8) {
        self.bytes.set(index, Some(value));
    }
}

} // verus!
