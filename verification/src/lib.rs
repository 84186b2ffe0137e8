//! Heaps with a block table, and collectors that reclaim unreachable blocks:
//! a heap that never reclaims, a copying collector and a generational one.
use vstd::prelude::*;

pub mod block_table;
pub mod copying;
pub mod generational;
pub mod once_and_done;
pub mod pointer;
pub mod ram_heap;

pub use block_table::BlockInfo;
pub use copying::CopyingHeap;
pub use generational::GenerationalHeap;
pub use once_and_done::OnceAndDoneHeap;
pub use pointer::{HeapError, Pointer, Tracer};
pub use ram_heap::RamHeap;

verus! {

/// Mutable references to two different elements of `slice`, or `None` when
/// the indices are equal or out of bounds.
pub fn independent_elements_from<T>(i: usize, j: usize, slice: &mut [T]) -> (r: Option<(&mut T, &mut T)>)
    ensures
        (i == j || i >= old(slice)@.len() || j >= old(slice)@.len()) <==> r is None,
        r is None ==> final(slice)@ == old(slice)@,
        r matches Some(pair) ==> {
            &&& *pair.0 == old(slice)@[i as int]
            &&& *pair.1 == old(slice)@[j as int]
            &&& final(slice)@ == old(slice)@.update(i as int, *final(pair.0)).update(j as int, *final(pair.1))
        },
{
    if i == j || i >= slice.len() || j >= slice.len() {
        None
    } else if i < j {
        let (left, right) = slice.split_at_mut(j);
        Some((&mut left[i], &mut right[0]))
    } else {
        let (left, right) = slice.split_at_mut(i);
        Some((&mut right[0], &mut left[j]))
    }
}

} // verus!
