use vstd::prelude::*;

verus! {

/// The smallest element of the slice, or `i32::MAX` for an empty slice.
pub fn single_threaded_min(vec: &[i32]) -> (r: i32)
    ensures
        forall|i: int| 0 <= i < vec@.len() ==> r <= vec@[i],
        r == i32::MAX || exists|i: int| 0 <= i < vec@.len() && r == vec@[i],
{
    let mut curr_min = i32::MAX;
    let mut i: usize = 0;
    while i < vec.len()
        invariant
            i <= vec@.len(),
            forall|j: int| 0 <= j < i ==> curr_min <= vec@[j],
            curr_min == i32::MAX || exists|j: int| 0 <= j < i && curr_min == vec@[j],
        decreases vec@.len() - i,
    {
        let num = vec[i];
        if num < curr_min {
            curr_min = num;
        }
        i += 1;
    }
    curr_min
}

} // verus!
