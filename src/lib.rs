use vstd::prelude::*;

pub mod decimal;
pub mod http;
pub mod linked_list;
pub mod tree;

verus! {

/// Sum of two sizes; the sum must fit in a `usize`.
pub fn add(left: usize, right: usize) -> (r: usize)
    requires
        left + right <= usize::MAX,
    ensures
        r == left + right,
{
    left + right
}

} // verus!
