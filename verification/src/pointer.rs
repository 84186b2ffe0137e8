//! Pointers into a garbage-collected heap, the errors a heap reports, and the
//! tracer that tells a collector which blocks are still reachable.
use vstd::prelude::*;

verus! {

/// A pointer to one word of an allocated block: the block's number, the
/// offset of the word inside the block, and the length of the whole block.
#[derive(Copy, Clone, Debug, PartialEq, Eq, Hash, Structural)]
pub struct Pointer {
    pub block: usize,
    pub offset: usize,
    pub size: usize,
}

/// The pointers of a block of `size` words that start at `offset`, one per word.
pub open spec fn pointers_from(block: usize, offset: int, size: usize) -> Seq<Pointer>
    recommends
        0 <= offset <= size,
{
    Seq::new((size - offset) as nat, |k: int| Pointer { block, offset: (offset + k) as usize, size })
}

impl Pointer {
    /// A pointer to the first word of block `block`, which holds `size` words.
    pub fn new(block: usize, size: usize) -> (p: Pointer)
        ensures
            p == (Pointer { block, offset: 0, size }),
    {
        Pointer { block, offset: 0, size }
    }

    pub fn block_num(&self) -> (b: usize)
        ensures
            b == self.block,
    {
        self.block
    }

    pub fn offset(&self) -> (o: usize)
        ensures
            o == self.offset,
    {
        self.offset
    }

    pub fn len(&self) -> (n: usize)
        ensures
            n == self.size,
    {
        self.size
    }

    /// This pointer and the pointers to every later word of its block, in order.
    pub fn iter(&self) -> (r: Vec<Pointer>)
        ensures
            r@ == (if self.offset <= self.size {
                pointers_from(self.block, self.offset as int, self.size)
            } else {
                Seq::<Pointer>::empty()
            }),
    {
        let mut r: Vec<Pointer> = Vec::new();
        if self.offset > self.size {
            return r;
        }
        let mut k: usize = self.offset;
        while k < self.size
            invariant
                self.offset <= k <= self.size,
                r@ == pointers_from(self.block, self.offset as int, self.size).take(k - self.offset),
            decreases self.size - k,
        {
            r.push(Pointer { block: self.block, offset: k, size: self.size });
            k = k + 1;
            assert(r@ =~= pointers_from(self.block, self.offset as int, self.size).take(k - self.offset));
        }
        assert(r@ =~= pointers_from(self.block, self.offset as int, self.size));
        r
    }
}

/// What can go wrong in a heap operation.
#[derive(Copy, Clone, Debug, PartialEq, Eq, Structural)]
pub enum HeapError {
    /// No block number is free.
    OutOfBlocks,
    /// The heap has no room for the requested number of words.
    OutOfMemory,
    /// The block number and the largest legal block number.
    IllegalBlock(usize, usize),
    /// The block number is not allocated.
    UnallocatedBlock(usize),
    /// The offset, the block number and the block's size.
    OffsetTooBig(usize, usize, usize),
    /// The pointer's length, the block's size and the block number.
    MisalignedPointer(usize, usize, usize),
    /// The address and the first address past the allocated words.
    IllegalAddress(usize, usize),
    /// A request for zero words.
    ZeroSizeRequest,
}

/// Finds the blocks that are still reachable.
pub trait Tracer {
    /// Sets `blocks_used[b]` for every block `b` that the tracer still refers
    /// to; it is handed one flag per block number, all unset.
    fn trace(&self, blocks_used: &mut [bool])
        requires
            forall|i: int| 0 <= i < old(blocks_used)@.len() ==> !old(blocks_used)@[i],
        ensures
            final(blocks_used)@.len() == old(blocks_used)@.len(),
    ;
}

} // verus!
