//! Values that are copied byte by byte.

use crate::layout::{valid_layout, Layout};
use vstd::arithmetic::power2::is_pow2;
use vstd::bytes::{
    lemma_auto_spec_u16_to_from_le_bytes, lemma_auto_spec_u32_to_from_le_bytes,
    lemma_auto_spec_u64_to_from_le_bytes, spec_u16_to_le_bytes, spec_u32_to_le_bytes,
    spec_u64_to_le_bytes, u16_from_le_bytes, u16_to_le_bytes, u32_from_le_bytes, u32_to_le_bytes,
    u64_from_le_bytes, u64_to_le_bytes,
};
use vstd::prelude::*;

verus! {

/// A value that is its bytes: it has a fixed layout, every value has as
/// many bytes as the layout says, all of them written, and the bytes
/// determine the value.
pub trait Plain: Sized {
    /// The layout of every value of the type.
    spec fn spec_layout() -> Layout;

    /// The bytes of the value, in the order in which they lie in a region.
    spec fn spec_bytes(&self) -> Seq<u8>;

    /// The layout is valid, and its size is a multiple of its alignment.
    proof fn lemma_layout()
        ensures
            Self::spec_layout().valid(),
            Self::spec_layout().spec_size() % Self::spec_layout().spec_align() == 0,
    ;

    /// A value has as many bytes as its layout says.
    proof fn lemma_bytes_len(&self)
        ensures
            self.spec_bytes().len() == Self::spec_layout().spec_size(),
    ;

    /// Values with the same bytes are the same value.
    proof fn lemma_bytes_injective(&self, other: &Self)
        requires
            self.spec_bytes() == other.spec_bytes(),
        ensures
            *self == *other,
    ;

    /// The layout of every value of the type.
    fn layout() -> (r: Layout)
        ensures
            r == Self::spec_layout(),
    ;

    /// The bytes of the value.
    fn to_bytes(&self) -> (r: Vec<u8>)
        ensures
            r@ == self.spec_bytes(),
    ;

    /// The value with these bytes.
    fn from_bytes(bytes: &[u8]) -> (r: Self)
        requires
            bytes@.len() == Self::spec_layout().spec_size(),
        ensures
            r.spec_bytes() == bytes@,
    ;
}

/// The layout of a primitive whose size and alignment are both `size`.
pub closed spec fn primitive_layout(size: usize) -> Layout {
    Layout::spec_from_size_align(size as int, size as int).unwrap()
}

/// `primitive_layout(size)` has size and alignment `size`, for the sizes
/// that the primitives have.
pub proof fn lemma_primitive_layout(size: usize)
    requires
        size == 1 || size == 2 || size == 4 || size == 8,
    ensures
        valid_layout(size as int, size as int),
        primitive_layout(size).valid(),
        primitive_layout(size).spec_size() == size,
        primitive_layout(size).spec_align() == size,
{
    reveal_with_fuel(is_pow2, 5);
    Layout::lemma_spec_from_size_align(size as int, size as int);
}

/// The layout of a primitive whose size and alignment are both `size`.
fn make_primitive_layout(size: usize) -> (r: Layout)
    requires
        size == 1 || size == 2 || size == 4 || size == 8,
    ensures
        r == primitive_layout(size),
{
    proof {
        lemma_primitive_layout(size);
        Layout::lemma_spec_from_size_align(size as int, size as int);
    }
    Layout::from_size_align_unchecked(size, size)
}

/// A `u8` is its one byte.
impl Plain for u8 {
    open spec fn spec_layout() -> Layout {
        primitive_layout(1)
    }

    open spec fn spec_bytes(&self) -> Seq<u8> {
        seq![*self]
    }

    proof fn lemma_layout() {
        lemma_primitive_layout(1);
    }

    proof fn lemma_bytes_len(&self) {
        lemma_primitive_layout(1);
    }

    proof fn lemma_bytes_injective(&self, other: &Self) {
        assert(seq![*self][0] == *self);
        assert(seq![*other][0] == *other);
    }

    fn layout() -> (r: Layout) {
        make_primitive_layout(1)
    }

    fn to_bytes(&self) -> (r: Vec<u8>) {
        let mut out: Vec<u8> = Vec::new();
        out.push(*self);
        assert(out@ =~= seq![*self]);
        out
    }

    fn from_bytes(bytes: &[u8]) -> (r: Self) {
        proof {
            lemma_primitive_layout(1);
        }
        let r = bytes[0];
        assert(seq![r] =~= bytes@);
        r
    }
}

/// The two bytes of a `u16`, the least significant first.
impl Plain for u16 {
    open spec fn spec_layout() -> Layout {
        primitive_layout(2)
    }

    open spec fn spec_bytes(&self) -> Seq<u8> {
        spec_u16_to_le_bytes(*self)
    }

    proof fn lemma_layout() {
        lemma_primitive_layout(2);
    }

    proof fn lemma_bytes_len(&self) {
        lemma_primitive_layout(2);
        lemma_auto_spec_u16_to_from_le_bytes();
    }

    proof fn lemma_bytes_injective(&self, other: &Self) {
        lemma_auto_spec_u16_to_from_le_bytes();
        assert(spec_u16_to_le_bytes(*self).len() == 2);
        assert(spec_u16_to_le_bytes(*other).len() == 2);
    }

    fn layout() -> (r: Layout) {
        make_primitive_layout(2)
    }

    fn to_bytes(&self) -> (r: Vec<u8>) {
        u16_to_le_bytes(*self)
    }

    fn from_bytes(bytes: &[u8]) -> (r: Self) {
        proof {
            lemma_primitive_layout(2);
            lemma_auto_spec_u16_to_from_le_bytes();
        }
        u16_from_le_bytes(bytes)
    }
}

/// The four bytes of a `u32`, the least significant first.
impl Plain for u32 {
    open spec fn spec_layout() -> Layout {
        primitive_layout(4)
    }

    open spec fn spec_bytes(&self) -> Seq<u8> {
        spec_u32_to_le_bytes(*self)
    }

    proof fn lemma_layout() {
        lemma_primitive_layout(4);
    }

    proof fn lemma_bytes_len(&self) {
        lemma_primitive_layout(4);
        lemma_auto_spec_u32_to_from_le_bytes();
    }

    proof fn lemma_bytes_injective(&self, other: &Self) {
        lemma_auto_spec_u32_to_from_le_bytes();
        assert(spec_u32_to_le_bytes(*self).len() == 4);
        assert(spec_u32_to_le_bytes(*other).len() == 4);
    }

    fn layout() -> (r: Layout) {
        make_primitive_layout(4)
    }

    fn to_bytes(&self) -> (r: Vec<u8>) {
        u32_to_le_bytes(*self)
    }

    fn from_bytes(bytes: &[u8]) -> (r: Self) {
        proof {
            lemma_primitive_layout(4);
            lemma_auto_spec_u32_to_from_le_bytes();
        }
        u32_from_le_bytes(bytes)
    }
}

/// The eight bytes of a `u64`, the least significant first.
impl Plain for u64 {
    open spec fn spec_layout() -> Layout {
        primitive_layout(8)
    }

    open spec fn spec_bytes(&self) -> Seq<u8> {
        spec_u64_to_le_bytes(*self)
    }

    proof fn lemma_layout() {
        lemma_primitive_layout(8);
    }

    proof fn lemma_bytes_len(&self) {
        lemma_primitive_layout(8);
        lemma_auto_spec_u64_to_from_le_bytes();
    }

    proof fn lemma_bytes_injective(&self, other: &Self) {
        lemma_auto_spec_u64_to_from_le_bytes();
        assert(spec_u64_to_le_bytes(*self).len() == 8);
        assert(spec_u64_to_le_bytes(*other).len() == 8);
    }

    fn layout() -> (r: Layout) {
        make_primitive_layout(8)
    }

    fn to_bytes(&self) -> (r: Vec<u8>) {
        u64_to_le_bytes(*self)
    }

    fn from_bytes(bytes: &[u8]) -> (r: Self) {
        proof {
            lemma_primitive_layout(8);
            lemma_auto_spec_u64_to_from_le_bytes();
        }
        u64_from_le_bytes(bytes)
    }
}

} // verus!
