//! Positional selection behind the median.
//!
//! The median of this library is positional: it does not sort.  For an
//! odd length it is the element at index `len / 2` as given; for an even
//! length it is the average of the elements at indices `len / 2 - 1` and
//! `len / 2`.  The selection of those elements is verified here; averaging
//! them happens in 64-bit floating point, outside the verified surface.

use vstd::prelude::*;

verus! {

/// The element (odd length), pair of elements (even length), or nothing
/// (empty input) that the positional median is computed from.
pub fn median_pick<T: Copy>(data: &[T]) -> (r: Option<(T, Option<T>)>)
    ensures
        data@.len() == 0 <==> r is None,
        data@.len() % 2 == 1 ==> r == Some((data@[data@.len() as int / 2], None::<T>)),
        data@.len() % 2 == 0 && data@.len() > 0 ==> r == Some(
            (data@[data@.len() as int / 2 - 1], Some(data@[data@.len() as int / 2])),
        ),
{
    let n = data.len();
    if n == 0 {
        None
    } else if n % 2 == 1 {
        Some((data[n / 2], None))
    } else {
        Some((data[n / 2 - 1], Some(data[n / 2])))
    }
}

} // verus!
