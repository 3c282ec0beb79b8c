//! Powers of two, rounding to a multiple of one, and the layout of a payload.

use crate::error::Error;
use vstd::arithmetic::div_mod::{
    lemma_fundamental_div_mod, lemma_mod_multiples_basic, lemma_mod_self_0,
};
use vstd::arithmetic::power2::is_pow2;
use vstd::prelude::*;

verus! {

/// The smallest power of two that is at least `n`.
pub open spec fn next_power_of_two(n: nat) -> nat
    decreases n,
{
    if n <= 1 {
        1
    } else {
        2 * next_power_of_two((n + 1) / 2)
    }
}

/// `x` rounded up to the next multiple of `align`.
pub open spec fn round_up(x: int, align: int) -> int
    recommends
        align > 0,
{
    if x % align == 0 {
        x
    } else {
        x + (align - x % align)
    }
}

/// Of two distinct powers of two the larger is at least twice the smaller.
pub proof fn lemma_pow2_gap(a: int, b: int)
    requires
        is_pow2(a),
        is_pow2(b),
        a < b,
    ensures
        2 * a <= b,
    decreases a,
{
    reveal(is_pow2);
    if a > 1 {
        lemma_pow2_gap(a / 2, b / 2);
    }
}

/// A power of two divides every larger power of two.
pub proof fn lemma_pow2_divides(a: int, b: int)
    requires
        is_pow2(a),
        is_pow2(b),
        a <= b,
    ensures
        b % a == 0,
    decreases b,
{
    reveal(is_pow2);
    if a < b {
        lemma_pow2_gap(a, b);
        lemma_pow2_divides(a, b / 2);
        let h = b / 2;
        lemma_fundamental_div_mod(h, a);
        assert(b == (2 * (h / a)) * a) by (nonlinear_arith)
            requires
                b == 2 * h,
                h == a * (h / a),
        ;
        lemma_mod_multiples_basic(2 * (h / a), a);
    } else {
        lemma_mod_self_0(a);
    }
}

/// `next_power_of_two(n)` is a power of two, is at least `n`, and no power
/// of two lies between `n` and it.
pub proof fn lemma_next_power_of_two(n: nat)
    ensures
        is_pow2(next_power_of_two(n) as int),
        next_power_of_two(n) >= n,
        forall|q: int| is_pow2(q) && q >= n ==> next_power_of_two(n) <= q,
    decreases n,
{
    reveal(is_pow2);
    if n > 1 {
        let h = (n + 1) / 2;
        lemma_next_power_of_two(h as nat);
        assert forall|q: int| is_pow2(q) && q >= n implies next_power_of_two(n) <= q by {
            assert(is_pow2(q / 2));
            assert(q / 2 >= h);
        }
    } else {
        assert forall|q: int| is_pow2(q) && q >= n implies next_power_of_two(n) <= q by {}
    }
}

/// The smallest power of two that is at least `n`, or `None` where that
/// power does not fit in a `usize`.
pub fn checked_next_power_of_two(n: usize) -> (r: Option<usize>)
    ensures
        r == (if next_power_of_two(n as nat) <= usize::MAX {
            Some(next_power_of_two(n as nat) as usize)
        } else {
            None
        }),
{
    let mut p: usize = 1;
    proof {
        reveal(is_pow2);
        lemma_next_power_of_two(n as nat);
    }
    while p < n
        invariant
            p >= 1,
            is_pow2(p as int),
            p == 1 || p / 2 < n,
            is_pow2(next_power_of_two(n as nat) as int),
            next_power_of_two(n as nat) >= n,
            forall|q: int| is_pow2(q) && q >= n ==> next_power_of_two(n as nat) <= q,
        decreases usize::MAX - p,
    {
        proof {
            lemma_pow2_gap(p as int, next_power_of_two(n as nat) as int);
        }
        match p.checked_mul(2) {
            Some(d) => {
                proof {
                    reveal(is_pow2);
                }
                p = d;
            },
            None => {
                return None;
            },
        }
    }
    proof {
        let t = next_power_of_two(n as nat) as int;
        if t < p {
            lemma_pow2_gap(t, p as int);
        }
    }
    Some(p)
}

/// `round_up(x, align)` is a multiple of `align`, at least `x`, and less
/// than `x + align`.
pub proof fn lemma_round_up(x: int, align: int)
    requires
        align > 0,
    ensures
        round_up(x, align) % align == 0,
        x <= round_up(x, align) < x + align,
{
    lemma_fundamental_div_mod(x, align);
    if x % align != 0 {
        assert(round_up(x, align) == (x / align + 1) * align) by (nonlinear_arith)
            requires
                x == align * (x / align) + x % align,
                round_up(x, align) == x + (align - x % align),
        ;
        lemma_mod_multiples_basic(x / align + 1, align);
    }
}

/// No multiple of `align` lies between `x` and `round_up(x, align)`.
pub proof fn lemma_round_up_least(x: int, align: int, y: int)
    requires
        align > 0,
        y >= x,
        y % align == 0,
    ensures
        round_up(x, align) <= y,
{
    lemma_fundamental_div_mod(x, align);
    lemma_fundamental_div_mod(y, align);
    if x % align != 0 && y < round_up(x, align) {
        let k = y / align;
        let j = x / align;
        assert(k <= j) by (nonlinear_arith)
            requires
                align > 0,
                align * k < align * j + align,
        ;
        assert(align * k <= align * j) by (nonlinear_arith)
            requires
                align > 0,
                k <= j,
        ;
    }
}

/// Whether a payload may have this size and alignment: the alignment is a
/// power of two that fits in a `usize`, and the size rounded up to it fits
/// in an `isize`.
pub open spec fn valid_layout(size: int, align: int) -> bool {
    0 <= size && is_pow2(align) && align <= usize::MAX && round_up(size, align) <= isize::MAX
}

/// `Some(x rounded up to a multiple of align)`, or `None` where that does
/// not fit in a `usize`.
pub fn checked_round_up(x: usize, align: usize) -> (r: Option<usize>)
    requires
        align > 0,
    ensures
        r == (if round_up(x as int, align as int) <= usize::MAX {
            Some(round_up(x as int, align as int) as usize)
        } else {
            None
        }),
{
    let rest: usize = x % align;
    if rest == 0 {
        Some(x)
    } else {
        x.checked_add(align - rest)
    }
}

/// Whether `n` is a power of two.
pub fn is_power_of_two(n: usize) -> (r: bool)
    ensures
        r == is_pow2(n as int),
{
    proof {
        reveal(is_pow2);
        lemma_next_power_of_two(n as nat);
    }
    n != 0 && checked_next_power_of_two(n) == Some(n)
}

/// The size and alignment of a payload: of one value, or of a block of
/// values that lie one after another.
#[derive(Clone, Copy, Debug, PartialEq, Eq)]
pub struct Layout {
    size: usize,
    align: usize,
}

impl Layout {
    #[verifier::type_invariant]
    closed spec fn inv(self) -> bool {
        valid_layout(self.size as int, self.align as int)
    }

    /// The payload's size in bytes.
    pub closed spec fn spec_size(self) -> usize {
        self.size
    }

    /// The payload's alignment in bytes.
    pub closed spec fn spec_align(self) -> usize {
        self.align
    }

    /// What holds of every layout that exists at run time.
    pub open spec fn valid(self) -> bool {
        valid_layout(self.spec_size() as int, self.spec_align() as int)
    }

    /// The size rounded up to the alignment.
    pub open spec fn spec_padded_size(self) -> int {
        round_up(self.spec_size() as int, self.spec_align() as int)
    }

    /// The layout with this size and alignment, where there is one.
    pub closed spec fn spec_from_size_align(size: int, align: int) -> Result<Layout, Error> {
        if valid_layout(size, align) {
            Ok(Layout { size: size as usize, align: align as usize })
        } else {
            Err(Error::InvalidLayout)
        }
    }

    /// `spec_from_size_align` gives a layout exactly for the sizes and
    /// alignments of which `valid_layout` holds, and that layout has them.
    pub broadcast proof fn lemma_spec_from_size_align(size: int, align: int)
        ensures
            #![trigger Layout::spec_from_size_align(size, align)]
            valid_layout(size, align) ==> {
                let r = Layout::spec_from_size_align(size, align);
                r.is_ok() && r.unwrap().spec_size() == size && r.unwrap().spec_align() == align
                    && r.unwrap().valid()
            },
            !valid_layout(size, align) ==> Layout::spec_from_size_align(size, align) == Err::<
                Layout,
                Error,
            >(Error::InvalidLayout),
    {
        if valid_layout(size, align) {
            reveal(is_pow2);
            lemma_round_up(size, align);
        }
    }

    /// The layout with this size and alignment, or `InvalidLayout` where
    /// `valid_layout` does not hold of them.
    pub fn from_size_align(size: usize, align: usize) -> (r: Result<Layout, Error>)
        ensures
            r == Layout::spec_from_size_align(size as int, align as int),
    {
        if !is_power_of_two(align) {
            return Err(Error::InvalidLayout);
        }
        proof {
            reveal(is_pow2);
        }
        match checked_round_up(size, align) {
            Some(padded) => {
                if padded > isize::MAX as usize {
                    Err(Error::InvalidLayout)
                } else {
                    Ok(Layout { size, align })
                }
            },
            None => Err(Error::InvalidLayout),
        }
    }

    /// The layout with this size and alignment, of which `valid_layout`
    /// holds.
    pub fn from_size_align_unchecked(size: usize, align: usize) -> (r: Layout)
        requires
            valid_layout(size as int, align as int),
        ensures
            Ok::<Layout, Error>(r) == Layout::spec_from_size_align(size as int, align as int),
    {
        Layout { size, align }
    }

    /// The layout of `n` payloads of layout `element`, one after another
    /// with nothing between them, or `InvalidLayout` where that block is
    /// too large.
    pub fn array(element: Layout, n: usize) -> (r: Result<Layout, Error>)
        ensures
            r == Layout::spec_from_size_align(
                element.spec_size() * n,
                element.spec_align() as int,
            ),
    {
        match element.size().checked_mul(n) {
            Some(size) => Layout::from_size_align(size, element.align()),
            None => {
                proof {
                    reveal(is_pow2);
                    lemma_round_up(element.spec_size() * n, element.spec_align() as int);
                }
                Err(Error::InvalidLayout)
            },
        }
    }

    /// The layout with the same size whose alignment is the larger of this
    /// one's and `align`, or `InvalidLayout` where no such layout exists.
    pub fn align_to(&self, align: usize) -> (r: Result<Layout, Error>)
        ensures
            r == Layout::spec_from_size_align(
                self.spec_size() as int,
                if self.spec_align() >= align {
                    self.spec_align() as int
                } else {
                    align as int
                },
            ),
    {
        let larger: usize = if self.align >= align {
            self.align
        } else {
            align
        };
        Layout::from_size_align(self.size, larger)
    }

    /// The layout with the same alignment whose size is this one's rounded
    /// up to the alignment.
    pub fn pad_to_align(&self) -> (r: Layout)
        ensures
            r.valid(),
            r.spec_size() == self.spec_padded_size(),
            r.spec_align() == self.spec_align(),
    {
        proof {
            use_type_invariant(self);
            reveal(is_pow2);
            lemma_round_up(self.size as int, self.align as int);
        }
        let rest: usize = self.size % self.align;
        let padded: usize = if rest == 0 {
            self.size
        } else {
            self.size + (self.align - rest)
        };
        Layout { size: padded, align: self.align }
    }

    /// The payload's size in bytes.
    pub fn size(&self) -> (r: usize)
        ensures
            r == self.spec_size(),
            self.valid(),
    {
        proof {
            use_type_invariant(self);
        }
        self.size
    }

    /// The payload's alignment in bytes.
    pub fn align(&self) -> (r: usize)
        ensures
            r == self.spec_align(),
            self.valid(),
    {
        proof {
            use_type_invariant(self);
        }
        self.align
    }
}

} // verus!
