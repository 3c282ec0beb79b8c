//! Where a payload may lie in a region: the placement rule and its checks.

use crate::error::Error;
use crate::layout::{
    checked_next_power_of_two, lemma_next_power_of_two, lemma_pow2_divides, lemma_round_up,
    lemma_round_up_least, next_power_of_two, round_up, Layout,
};
use vstd::arithmetic::div_mod::{
    lemma_add_mod_noop, lemma_fundamental_div_mod, lemma_mod_multiples_basic, lemma_small_mod,
    lemma_sub_mod_noop,
};
use vstd::arithmetic::power2::is_pow2;
use vstd::prelude::*;

verus! {

/// The byte offsets of a payload in a region, from the region's base.
#[derive(Debug, Clone, Copy, PartialEq, Eq, Structural)]
pub struct ComputedOffsets {
    /// Where the payload starts.
    pub start: usize,
    /// Where the payload ends.
    pub end: usize,
    /// Where the payload ends once its size is rounded up to the alignment
    /// it was placed with.
    pub end_padded: usize,
}

/// The alignment a payload is placed with: the larger of its own and of the
/// caller's floor rounded up to a power of two.
pub open spec fn effective_align(layout: Layout, min_alignment: usize) -> int {
    let floor = next_power_of_two(min_alignment as nat) as int;
    if layout.spec_align() >= floor {
        layout.spec_align() as int
    } else {
        floor
    }
}

/// The least offset, not below `offset`, at which the address `ptr + offset`
/// is a multiple of `align`.
pub open spec fn aligned_offset(ptr: int, offset: int, align: int) -> int {
    round_up(ptr + offset, align) - ptr
}

/// Whether the layout and the placement stay within the machine's sizes:
/// the effective alignment fits in a `usize`, the payload's size rounded up
/// to it fits in an `isize`, and the address of the placement fits in a
/// `usize`.
pub open spec fn placement_fits(
    base: usize,
    start_offset: usize,
    layout: Layout,
    min_alignment: usize,
) -> bool {
    let align = effective_align(layout, min_alignment);
    &&& align <= usize::MAX
    &&& round_up(layout.spec_size() as int, align) <= isize::MAX
    &&& base + aligned_offset(base as int, start_offset as int, align) <= usize::MAX
}

/// What `compute_and_validate_offsets` returns. Errors of layout and
/// alignment come before those of bounds.
pub open spec fn spec_offsets(
    base: usize,
    size: usize,
    start_offset: usize,
    layout: Layout,
    min_alignment: usize,
    exact: bool,
) -> Result<ComputedOffsets, Error> {
    let align = effective_align(layout, min_alignment);
    let start = aligned_offset(base as int, start_offset as int, align);
    let padded = round_up(layout.spec_size() as int, align);
    if !placement_fits(base, start_offset, layout, min_alignment) {
        Err(Error::InvalidLayout)
    } else if exact && start != start_offset {
        Err(Error::RequestedOffsetUnaligned)
    } else if start + padded > usize::MAX {
        Err(Error::InvalidLayout)
    } else if start > size {
        Err(Error::OffsetOutOfBounds)
    } else if start + padded > size {
        Err(Error::OutOfMemory)
    } else {
        Ok(
            ComputedOffsets {
                start: start as usize,
                end: (start + layout.spec_size()) as usize,
                end_padded: (start + padded) as usize,
            },
        )
    }
}

/// A multiple of `b` is a multiple of every divisor `a` of `b`.
pub proof fn lemma_multiple_of_multiple(x: int, a: int, b: int)
    requires
        a > 0,
        b > 0,
        x % b == 0,
        b % a == 0,
    ensures
        x % a == 0,
{
    lemma_fundamental_div_mod(x, b);
    lemma_fundamental_div_mod(b, a);
    let q = x / b;
    let k = b / a;
    assert(x == (k * q) * a) by (nonlinear_arith)
        requires
            x == b * q,
            b == a * k,
    ;
    lemma_mod_multiples_basic(k * q, a);
}

/// The effective alignment is a power of two, and neither the payload's
/// own alignment nor the floor exceeds it.
pub proof fn lemma_effective_align(layout: Layout, min_alignment: usize)
    requires
        layout.valid(),
    ensures
        is_pow2(effective_align(layout, min_alignment)),
        effective_align(layout, min_alignment) >= layout.spec_align() >= 1,
        effective_align(layout, min_alignment) >= min_alignment,
        effective_align(layout, min_alignment) % (layout.spec_align() as int) == 0,
{
    reveal(is_pow2);
    lemma_next_power_of_two(min_alignment as nat);
    lemma_pow2_divides(layout.spec_align() as int, effective_align(layout, min_alignment));
}

/// The placement rule: `aligned_offset(ptr, offset, align)` is not below
/// `offset`, the address it stands for is a multiple of `align`, and no
/// smaller offset `other` has both properties.
pub proof fn lemma_aligned_offset_least(ptr: int, offset: int, align: int, other: int)
    requires
        align > 0,
    ensures
        aligned_offset(ptr, offset, align) >= offset,
        (ptr + aligned_offset(ptr, offset, align)) % align == 0,
        other >= offset && (ptr + other) % align == 0 ==> aligned_offset(ptr, offset, align)
            <= other,
{
    lemma_round_up(ptr + offset, align);
    if other >= offset && (ptr + other) % align == 0 {
        lemma_round_up_least(ptr + offset, align, ptr + other);
    }
}

/// In a region whose base address is a multiple of `align`, the placement
/// is itself a multiple of `align`, is not below `offset`, and no smaller
/// offset `other` has both properties.
pub proof fn lemma_aligned_offset_of_aligned_base(ptr: int, offset: int, align: int, other: int)
    requires
        align > 0,
        ptr % align == 0,
    ensures
        aligned_offset(ptr, offset, align) >= offset,
        aligned_offset(ptr, offset, align) % align == 0,
        other >= offset && other % align == 0 ==> aligned_offset(ptr, offset, align) <= other,
{
    lemma_aligned_offset_least(ptr, offset, align, other);
    let p = aligned_offset(ptr, offset, align);
    lemma_sub_mod_noop(ptr + p, ptr, align);
    lemma_small_mod(0, align as nat);
    if other >= offset && other % align == 0 {
        lemma_add_mod_noop(ptr, other, align);
    }
}

/// What holds of offsets that passed the checks: the payload starts at the
/// placement that the rule gives, at an address that meets the effective
/// alignment and the payload's own; it ends after its size, and once more
/// after its padded size, all within the region; in exact mode it starts
/// where it was asked to.
pub proof fn lemma_spec_offsets(
    base: usize,
    size: usize,
    start_offset: usize,
    layout: Layout,
    min_alignment: usize,
    exact: bool,
)
    requires
        layout.valid(),
        spec_offsets(base, size, start_offset, layout, min_alignment, exact).is_ok(),
    ensures
        ({
            let o = spec_offsets(base, size, start_offset, layout, min_alignment, exact).unwrap();
            let align = effective_align(layout, min_alignment);
            &&& o.start == aligned_offset(base as int, start_offset as int, align)
            &&& o.start >= start_offset
            &&& exact ==> o.start == start_offset
            &&& (base + o.start) % align == 0
            &&& (base + o.start) % (layout.spec_align() as int) == 0
            &&& o.end == o.start + layout.spec_size()
            &&& o.end_padded == o.start + round_up(layout.spec_size() as int, align)
            &&& o.start <= o.end <= o.end_padded <= size
        }),
{
    let align = effective_align(layout, min_alignment);
    lemma_effective_align(layout, min_alignment);
    lemma_aligned_offset_least(base as int, start_offset as int, align, 0);
    lemma_round_up(layout.spec_size() as int, align);
    lemma_multiple_of_multiple(
        base + aligned_offset(base as int, start_offset as int, align),
        layout.spec_align() as int,
        align,
    );
}

/// The start of a payload that passed the checks is the least offset, not
/// below the one asked for, whose address is a multiple of the effective
/// alignment: no offset `other` with these two properties is smaller. In a
/// region whose base address is such a multiple, the start is one too.
pub proof fn lemma_granted_start_is_least(
    base: usize,
    size: usize,
    start_offset: usize,
    layout: Layout,
    min_alignment: usize,
    exact: bool,
    other: int,
)
    requires
        layout.valid(),
        spec_offsets(base, size, start_offset, layout, min_alignment, exact).is_ok(),
    ensures
        ({
            let start = spec_offsets(
                base,
                size,
                start_offset,
                layout,
                min_alignment,
                exact,
            ).unwrap().start;
            let align = effective_align(layout, min_alignment);
            &&& start_offset <= start <= size
            &&& (base + start) % align == 0
            &&& other >= start_offset && (base + other) % align == 0 ==> start <= other
            &&& (base as int) % align == 0 ==> (start as int) % align == 0
        }),
{
    let align = effective_align(layout, min_alignment);
    lemma_spec_offsets(base, size, start_offset, layout, min_alignment, exact);
    lemma_effective_align(layout, min_alignment);
    lemma_aligned_offset_least(base as int, start_offset as int, align, other);
    if (base as int) % align == 0 {
        lemma_aligned_offset_of_aligned_base(base as int, start_offset as int, align, other);
    }
}

/// In exact mode, a request whose placement is not the offset it asked for
/// is refused as unaligned, provided the layout and the placement stay
/// within the machine's sizes.
pub proof fn lemma_exact_refuses_unaligned(
    base: usize,
    size: usize,
    start_offset: usize,
    layout: Layout,
    min_alignment: usize,
)
    requires
        placement_fits(base, start_offset, layout, min_alignment),
        aligned_offset(
            base as int,
            start_offset as int,
            effective_align(layout, min_alignment),
        ) != start_offset,
    ensures
        spec_offsets(base, size, start_offset, layout, min_alignment, true) == Err::<
            ComputedOffsets,
            Error,
        >(Error::RequestedOffsetUnaligned),
{
}

/// A request that no rule of layout or alignment refuses is refused by the
/// bounds exactly as follows: `OffsetOutOfBounds` where the placement lies
/// past the region's end, `OutOfMemory` where the placement lies within
/// the region and the padded end past it; otherwise it is granted.
pub proof fn lemma_bounds_errors(
    base: usize,
    size: usize,
    start_offset: usize,
    layout: Layout,
    min_alignment: usize,
    exact: bool,
)
    requires
        layout.valid(),
        spec_offsets(base, size, start_offset, layout, min_alignment, exact) != Err::<
            ComputedOffsets,
            Error,
        >(Error::InvalidLayout),
        spec_offsets(base, size, start_offset, layout, min_alignment, exact) != Err::<
            ComputedOffsets,
            Error,
        >(Error::RequestedOffsetUnaligned),
    ensures
        ({
            let align = effective_align(layout, min_alignment);
            let start = aligned_offset(base as int, start_offset as int, align);
            let end_padded = start + round_up(layout.spec_size() as int, align);
            let r = spec_offsets(base, size, start_offset, layout, min_alignment, exact);
            &&& start > size <==> r == Err::<ComputedOffsets, Error>(Error::OffsetOutOfBounds)
            &&& start <= size && end_padded > size <==> r == Err::<ComputedOffsets, Error>(
                Error::OutOfMemory,
            )
            &&& end_padded <= size <==> r.is_ok()
        }),
{
    let align = effective_align(layout, min_alignment);
    lemma_effective_align(layout, min_alignment);
    lemma_round_up(layout.spec_size() as int, align);
}

/// The least offset, not below `offset`, at which the address `ptr + offset`
/// is a multiple of `align`; `None` where that address does not fit in a
/// `usize`.
pub fn align_offset_up_to(ptr: usize, offset: usize, align: usize) -> (r: Option<usize>)
    requires
        align > 0,
    ensures
        r == (if ptr + aligned_offset(ptr as int, offset as int, align as int) <= usize::MAX {
            Some(aligned_offset(ptr as int, offset as int, align as int) as usize)
        } else {
            None
        }),
{
    proof {
        lemma_round_up(ptr + offset, align as int);
    }
    let offsetted_ptr: usize = match ptr.checked_add(offset) {
        Some(p) => p,
        None => {
            return None;
        },
    };
    let rest: usize = offsetted_ptr % align;
    let aligned_ptr: usize = if rest == 0 {
        offsetted_ptr
    } else {
        match offsetted_ptr.checked_add(align - rest) {
            Some(p) => p,
            None => {
                return None;
            },
        }
    };
    Some(aligned_ptr - ptr)
}

/// Computes where a payload of layout `t_layout` lies in a region of `size`
/// bytes at address `base`, at or after `start_offset`, and checks that it
/// fits. With `require_exact_start_offset` the payload must start at
/// `start_offset` itself.
pub fn compute_and_validate_offsets(
    base: usize,
    size: usize,
    start_offset: usize,
    t_layout: Layout,
    min_alignment: usize,
    require_exact_start_offset: bool,
) -> (r: Result<ComputedOffsets, Error>)
    ensures
        r == spec_offsets(
            base,
            size,
            start_offset,
            t_layout,
            min_alignment,
            require_exact_start_offset,
        ),
{
    broadcast use Layout::lemma_spec_from_size_align;

    proof {
        reveal(is_pow2);
        lemma_next_power_of_two(min_alignment as nat);
    }
    let ghost align = effective_align(t_layout, min_alignment);
    let floor: usize = match checked_next_power_of_two(min_alignment) {
        Some(f) => f,
        None => {
            return Err(Error::InvalidLayout);
        },
    };
    let t_align: usize = t_layout.align();
    let layout = match t_layout.align_to(floor) {
        Ok(l) => l,
        Err(_) => {
            return Err(Error::InvalidLayout);
        },
    };
    proof {
        lemma_round_up(base + start_offset, align);
        lemma_round_up(t_layout.spec_size() as int, align);
    }
    let computed_start_offset: usize = match align_offset_up_to(
        base,
        start_offset,
        layout.align(),
    ) {
        Some(s) => s,
        None => {
            return Err(Error::InvalidLayout);
        },
    };
    if require_exact_start_offset && start_offset != computed_start_offset {
        return Err(Error::RequestedOffsetUnaligned);
    }
    let computed_end_offset: usize = match computed_start_offset.checked_add(layout.size()) {
        Some(e) => e,
        None => {
            return Err(Error::InvalidLayout);
        },
    };
    let computed_end_offset_padded: usize = match computed_start_offset.checked_add(
        layout.pad_to_align().size(),
    ) {
        Some(e) => e,
        None => {
            return Err(Error::InvalidLayout);
        },
    };
    if computed_start_offset > size {
        return Err(Error::OffsetOutOfBounds);
    }
    if computed_end_offset_padded > size {
        return Err(Error::OutOfMemory);
    }
    Ok(
        ComputedOffsets {
            start: computed_start_offset,
            end: computed_end_offset,
            end_padded: computed_end_offset_padded,
        },
    )
}

} // verus!
