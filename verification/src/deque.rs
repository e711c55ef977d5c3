use vstd::prelude::*;
use std::collections::VecDeque;

verus! {

/// `VecDeque::capacity`: how many elements the deque can hold without
/// reallocating. The documentation promises no less than the current
/// length; the number itself depends on the allocator, so nothing more is
/// said of it.
#[verifier::external_body]
pub fn deque_capacity<T>(d: &VecDeque<T>) -> (r: usize)
    ensures
        r >= d@.len(),
{
    d.capacity()
}

} // verus!
