//! Small helpers on vectors.

use vstd::prelude::*;

verus! {

/// A vector of `size` copies of `fill`.
pub fn new_vector<T: Clone>(size: usize, fill: T) -> (vec: Vec<T>)
    ensures
        vec@.len() == size,
        forall|i: int| 0 <= i < size ==> cloned(fill, #[trigger] vec@[i]),
{
    let mut vec: Vec<T> = Vec::with_capacity(size);
    let mut i: usize = 0;
    while i < size
        invariant
            i <= size,
            vec@.len() == i,
            forall|j: int| 0 <= j < i ==> cloned(fill, #[trigger] vec@[j]),
        decreases size - i,
    {
        vec.push(fill.clone());
        i += 1;
    }
    vec
}

} // verus!
