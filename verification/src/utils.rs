use vstd::prelude::*;

verus! {

/// Mutable references to two distinct elements of a slice, in the order of the indices.
pub fn index_twice_mut<T>(idx_1: usize, idx_2: usize, slice: &mut [T]) -> (r: (&mut T, &mut T))
    requires
        idx_1 != idx_2,
        idx_1 < old(slice)@.len(),
        idx_2 < old(slice)@.len(),
    ensures
        *r.0 == old(slice)@[idx_1 as int],
        *r.1 == old(slice)@[idx_2 as int],
        final(slice)@ == old(slice)@.update(idx_1 as int, *final(r.0)).update(idx_2 as int, *final(r.1)),
{
    if idx_1 < idx_2 {
        let (left, right) = slice.split_at_mut(idx_2);
        let a = &mut left[idx_1];
        let b = right.first_mut().unwrap();
        (a, b)
    } else {
        let (left, right) = slice.split_at_mut(idx_1);
        let a = right.first_mut().unwrap();
        let b = &mut left[idx_2];
        (a, b)
    }
}

} // verus!
