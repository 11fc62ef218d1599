//! Picking the one element of a sequence that should hold exactly one.
use vstd::prelude::*;

verus! {

/// The element of `items` when it holds exactly one, else `None`.
pub fn only_one<T: Copy>(items: &[T]) -> (r: Option<T>)
    ensures
        items@.len() == 1 ==> r == Some(items@[0]),
        items@.len() != 1 ==> r is None,
{
    if items.len() == 1 {
        Some(items[0])
    } else {
        None
    }
}

} // verus!
