//! Two mutable views into one slice.

use vstd::prelude::*;

verus! {

/// Lends out the elements at two distinct indices of `slice` at once.
///
/// The slice is split between the two indices, so each view comes from a part of
/// its own. Whatever is written through the views is what the slice holds at those
/// two indices afterwards; every other element stays as it was.
pub fn pair_mut<T>(slice: &mut [T], i: usize, j: usize) -> (r: (&mut T, &mut T))
    requires
        i != j,
        i < old(slice)@.len(),
        j < old(slice)@.len(),
    ensures
        *r.0 == old(slice)@[i as int],
        *r.1 == old(slice)@[j as int],
        final(slice)@ == old(slice)@.update(i as int, *final(r.0)).update(
            j as int,
            *final(r.1),
        ),
{
    if i < j {
        let (low, high) = slice.split_at_mut(j);
        (&mut low[i], &mut high[0])
    } else {
        let (low, high) = slice.split_at_mut(i);
        (&mut high[0], &mut low[j])
    }
}

} // verus!
