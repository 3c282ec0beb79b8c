//! Slots that may hold no value yet, and filling them.

use vstd::pervasive::cloned;
use vstd::prelude::*;

verus! {

/// The first `length` slots of `vec`, as slots that may hold no value: a
/// slot within `vec` holds the value that `vec` has there, and a slot past
/// its end holds none.
pub fn maybe_uninit_slice_from_vec<T>(vec: Vec<T>, length: usize) -> (r: Vec<Option<T>>)
    ensures
        r@.len() == length,
        forall|i: int|
            0 <= i < length ==> #[trigger] r@[i] == (if i < vec@.len() {
                Some(vec@[i])
            } else {
                None
            }),
{
    let ghost values = vec@;
    let mut vec = vec;
    let mut slots: Vec<Option<T>> = Vec::new();
    while slots.len() < length
        invariant
            slots@.len() <= length,
            forall|i: int| 0 <= i < slots@.len() ==> #[trigger] slots@[i] == None::<T>,
        decreases length - slots@.len(),
    {
        slots.push(None);
    }
    vec.truncate(length);
    let mut i: usize = vec.len();
    while i > 0
        invariant
            i == vec@.len(),
            i <= length,
            i <= values.len(),
            vec@ == values.take(i as int),
            slots@.len() == length,
            forall|j: int|
                0 <= j < length ==> #[trigger] slots@[j] == (if i <= j < values.len() {
                    Some(values[j])
                } else {
                    None
                }),
        decreases i,
    {
        i -= 1;
        let value = vec.pop();
        slots.set(i, value);
    }
    slots
}

/// Fills every slot of `dst` with a copy of the value that `src` has at
/// the same place.
pub fn copy_into_maybe_uninit_slice<T: Copy>(src: &[T], dst: &mut Vec<Option<T>>)
    requires
        src@.len() == old(dst)@.len(),
    ensures
        final(dst)@.len() == src@.len(),
        forall|i: int| 0 <= i < src@.len() ==> #[trigger] final(dst)@[i] == Some(src@[i]),
{
    let mut i: usize = 0;
    while i < src.len()
        invariant
            i <= src@.len(),
            dst@.len() == src@.len(),
            forall|j: int| 0 <= j < i ==> #[trigger] dst@[j] == Some(src@[j]),
        decreases src@.len() - i,
    {
        dst.set(i, Some(src[i]));
        i += 1;
    }
}

/// Fills every slot of `dst` with a clone of the value that `src` has at
/// the same place. What a slot held before is not dropped first.
pub fn clone_into_maybe_uninit_slice<T: Clone>(src: &[T], dst: &mut Vec<Option<T>>)
    requires
        src@.len() == old(dst)@.len(),
    ensures
        final(dst)@.len() == src@.len(),
        forall|i: int|
            0 <= i < src@.len() ==> (#[trigger] final(dst)@[i]).is_some() && cloned(
                src@[i],
                final(dst)@[i].unwrap(),
            ),
{
    let mut i: usize = 0;
    while i < src.len()
        invariant
            i <= src@.len(),
            dst@.len() == src@.len(),
            forall|j: int|
                0 <= j < i ==> (#[trigger] dst@[j]).is_some() && cloned(src@[j], dst@[j].unwrap()),
        decreases src@.len() - i,
    {
        let value = src[i].clone();
        dst.set(i, Some(value));
        i += 1;
    }
}

} // verus!
