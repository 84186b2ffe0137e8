//! A heap that allocates each word once and never reclaims any.
use vstd::prelude::*;

use crate::block_table::{
    address_of, block_ptr, blocks_disjoint, blocks_within, copies_in_use, first_free, in_use,
    lemma_first_free, BlockInfo, BlockTable,
};
use crate::pointer::{HeapError, Pointer, Tracer};
use crate::ram_heap::RamHeap;

verus! {

/// What a load of `p` gives back, in a heap with table `t` and words `memory`.
pub open spec fn load_outcome(t: Seq<Option<BlockInfo>>, memory: Seq<u64>, p: Pointer) -> Result<u64, HeapError> {
    match address_of(t, p) {
        Ok(a) => Ok(memory[a as int]),
        Err(e) => Err(e),
    }
}

/// What a store of `value` through `p` gives back, and the words it leaves.
pub open spec fn store_outcome(t: Seq<Option<BlockInfo>>, memory: Seq<u64>, p: Pointer, value: u64) -> (Result<(), HeapError>, Seq<u64>) {
    match address_of(t, p) {
        Ok(a) => (Ok(()), memory.update(a as int, value)),
        Err(e) => (Err(e), memory),
    }
}

/// The words from `from` on are zero.
pub open spec fn zero_from(memory: Seq<u64>, from: int) -> bool {
    forall|a: int| from <= a < memory.len() ==> #[trigger] memory[a] == 0
}

/// Two valid pointers to different words of a table whose blocks are disjoint
/// designate different addresses, below `limit` when the blocks end there.
pub proof fn lemma_addresses_distinct(t: Seq<Option<BlockInfo>>, limit: int, p: Pointer, q: Pointer)
    requires
        blocks_within(t, limit),
        blocks_disjoint(t),
        limit <= usize::MAX,
        address_of(t, p) is Ok,
        address_of(t, q) is Ok,
    ensures
        (p.block != q.block || p.offset != q.offset) ==> address_of(t, p) != address_of(t, q),
        address_of(t, p)->Ok_0 < limit,
{
    let bp = t[p.block as int]->Some_0;
    let bq = t[q.block as int]->Some_0;
    assert(t[p.block as int] is Some);
    assert(t[q.block as int] is Some);
    assert(address_of(t, p) == Ok::<usize, HeapError>((bp.start + p.offset) as usize));
    assert(address_of(t, q) == Ok::<usize, HeapError>((bq.start + q.offset) as usize));
}

/// A heap of `HEAP_SIZE` words with `MAX_BLOCKS` block numbers that hands
/// out each word at most once.
pub struct OnceAndDoneHeap<const HEAP_SIZE: usize, const MAX_BLOCKS: usize> {
    heap: RamHeap<HEAP_SIZE>,
    block_info: BlockTable<MAX_BLOCKS>,
}

impl<const HEAP_SIZE: usize, const MAX_BLOCKS: usize> OnceAndDoneHeap<HEAP_SIZE, MAX_BLOCKS> {
    /// The block table: for each block number, where its block lies.
    pub closed spec fn table(&self) -> Seq<Option<BlockInfo>> {
        self.block_info@
    }

    /// The words of the heap.
    pub closed spec fn memory(&self) -> Seq<u64> {
        self.heap.words()
    }

    /// The first word that has never been allocated.
    pub closed spec fn next_address(&self) -> nat {
        self.heap.next()
    }

    /// The heap and the table keep their own invariants.
    pub closed spec fn parts_wf(&self) -> bool {
        &&& self.heap.wf()
        &&& self.block_info.wf()
    }

    /// One table entry per block number; every block lies below the first
    /// unallocated word, no two blocks overlap, and no word above them was written.
    pub open spec fn wf(&self) -> bool {
        &&& self.parts_wf()
        &&& self.table().len() == MAX_BLOCKS
        &&& self.memory().len() == HEAP_SIZE
        &&& self.next_address() <= HEAP_SIZE
        &&& blocks_within(self.table(), self.next_address() as int)
        &&& blocks_disjoint(self.table())
        &&& zero_from(self.memory(), self.next_address() as int)
    }

    pub open spec fn load_spec(&self, p: Pointer) -> Result<u64, HeapError> {
        load_outcome(self.table(), self.memory(), p)
    }

    pub open spec fn store_spec(&self, p: Pointer, value: u64) -> (Result<(), HeapError>, Seq<u64>) {
        store_outcome(self.table(), self.memory(), p, value)
    }

    /// `after` is this heap once `value` has been written through `p`: the
    /// table and the allocation stay, and at most the designated word changes.
    pub open spec fn stored(&self, p: Pointer, value: u64, after: &Self) -> bool {
        &&& after.table() == self.table()
        &&& after.next_address() == self.next_address()
        &&& after.memory() == self.store_spec(p, value).1
    }

    /// A heap with every block number free and every word zero.
    pub fn new() -> (h: Self)
        ensures
            h.wf(),
            h.table() == Seq::new(MAX_BLOCKS as nat, |i: int| None::<BlockInfo>),
            h.memory() == Seq::new(HEAP_SIZE as nat, |i: int| 0u64),
            h.next_address() == 0,
    {
        OnceAndDoneHeap { heap: RamHeap::new(), block_info: BlockTable::new() }
    }

    /// The address that `p` designates.
    pub fn address(&self, p: Pointer) -> (r: Result<usize, HeapError>)
        requires
            self.wf(),
            0 < MAX_BLOCKS,
        ensures
            r == address_of(self.table(), p),
    {
        self.block_info.address(p)
    }

    /// The word that `p` designates.
    pub fn load(&self, p: Pointer) -> (r: Result<u64, HeapError>)
        requires
            self.wf(),
            0 < MAX_BLOCKS,
        ensures
            r == self.load_spec(p),
    {
        match self.block_info.address(p) {
            Ok(address) => self.heap.load(address),
            Err(e) => Err(e),
        }
    }

    /// Writes `value` into the word that `p` designates.
    pub fn store(&mut self, p: Pointer, value: u64) -> (r: Result<(), HeapError>)
        requires
            old(self).wf(),
            0 < MAX_BLOCKS,
        ensures
            final(self).wf(),
            r == old(self).store_spec(p, value).0,
            old(self).stored(p, value, final(self)),
    {
        match self.block_info.address(p) {
            Ok(address) => self.heap.store(address, value),
            Err(e) => Err(e),
        }
    }

    /// The allocated block numbers, in increasing order.
    pub fn blocks_in_use(&self) -> (r: Vec<usize>)
        ensures
            r@ == in_use(self.table()),
    {
        self.block_info.blocks_in_use()
    }

    /// The number of allocated blocks.
    pub fn num_allocated_blocks(&self) -> (n: usize)
        ensures
            n == in_use(self.table()).len(),
    {
        self.block_info.blocks_in_use().len()
    }

    /// The pointer to the first word of block `block`, when it is allocated.
    pub fn allocated_block_ptr(&self, block: usize) -> (r: Option<Pointer>)
        ensures
            r == block_ptr(self.table(), block),
    {
        self.block_info.allocated_block_ptr(block)
    }

    /// Each allocated block number with the number of times its block was copied.
    pub fn blocks_num_copies(&self) -> (r: Vec<(usize, usize)>)
        ensures
            r@ == copies_in_use(self.table()),
    {
        self.block_info.blocks_num_copies()
    }

    /// Allocates a block of `num_words` words in the lowest free block number.
    /// This heap never collects, so the tracer is not consulted.
    pub fn malloc<T: Tracer>(&mut self, num_words: usize, tracer: &T) -> (r: Result<Pointer, HeapError>)
        requires
            old(self).wf(),
        ensures
            final(self).wf(),
            final(self).memory() == old(self).memory(),
            match first_free(old(self).table()) {
                None => r == Err::<Pointer, HeapError>(HeapError::OutOfBlocks)
                    && final(self).table() == old(self).table()
                    && final(self).next_address() == old(self).next_address(),
                Some(b) => if num_words == 0 {
                    r == Err::<Pointer, HeapError>(HeapError::ZeroSizeRequest)
                        && final(self).table() == old(self).table()
                        && final(self).next_address() == old(self).next_address()
                } else if old(self).next_address() + num_words > HEAP_SIZE {
                    r == Err::<Pointer, HeapError>(HeapError::OutOfMemory)
                        && final(self).table() == old(self).table()
                        && final(self).next_address() == old(self).next_address()
                } else {
                    &&& r == Ok::<Pointer, HeapError>(Pointer { block: b, offset: 0, size: num_words })
                    &&& final(self).table() == old(self).table().update(
                        b as int,
                        Some(BlockInfo { start: old(self).next_address() as usize, size: num_words, num_times_copied: 0 }),
                    )
                    &&& final(self).next_address() == old(self).next_address() + num_words
                    &&& forall|i: usize| i < num_words ==> #[trigger] final(self).load_spec(Pointer { block: b, offset: i, size: num_words }) == Ok::<u64, HeapError>(0)
                },
            },
    {
        proof {
            lemma_first_free(self.table());
        }
        match self.block_info.available_block() {
            Some(block_num) => {
                let start = self.heap.malloc(num_words)?;
                let ghost t0 = self.table();
                self.block_info.set(block_num, Some(BlockInfo { start, size: num_words, num_times_copied: 0 }));
                proof {
                    assert forall|i: int, j: int|
                        0 <= i < self.table().len() && 0 <= j < self.table().len() && i != j
                            && #[trigger] self.table()[i] is Some && #[trigger] self.table()[j] is Some implies {
                            ||| self.table()[i]->Some_0.start + self.table()[i]->Some_0.size <= self.table()[j]->Some_0.start
                            ||| self.table()[j]->Some_0.start + self.table()[j]->Some_0.size <= self.table()[i]->Some_0.start
                        } by {
                        if i != block_num as int && j != block_num as int {
                            assert(t0[i] is Some && t0[j] is Some);
                        } else if i == block_num as int {
                            assert(t0[j] is Some);
                        } else {
                            assert(t0[i] is Some);
                        }
                    }
                    assert forall|i: int| 0 <= i < self.table().len() && #[trigger] self.table()[i] is Some
                        implies self.table()[i]->Some_0.start + self.table()[i]->Some_0.size <= usize::MAX by {
                        if i != block_num as int {
                            assert(t0[i] is Some);
                        }
                    }
                }
                Ok(Pointer::new(block_num, num_words))
            },
            None => Err(HeapError::OutOfBlocks),
        }
    }

    /// Whether every word outside the allocated region is untouched; this heap
    /// has no second region, so there are never strays.
    pub fn assert_no_strays(&self) -> (ok: bool)
        ensures
            ok,
    {
        true
    }

    /// A store through a valid pointer is read back by a load through it.
    pub proof fn law_store_then_load(h: Self, p: Pointer, value: u64, after: Self)
        requires
            h.wf(),
            h.store_spec(p, value).0 is Ok,
            h.stored(p, value, &after),
        ensures
            after.load_spec(p) == Ok::<u64, HeapError>(value),
    {
    }

    /// A store through one pointer leaves every word that another pointer designates as it was.
    pub proof fn law_store_keeps_other_words(h: Self, p: Pointer, q: Pointer, value: u64, after: Self)
        requires
            h.wf(),
            h.stored(p, value, &after),
            p.block != q.block || p.offset != q.offset,
        ensures
            after.load_spec(q) == h.load_spec(q),
    {
        if address_of(h.table(), p) is Ok && address_of(h.table(), q) is Ok {
            lemma_addresses_distinct(h.table(), h.next_address() as int, p, q);
        }
    }

    /// Valid pointers to different words designate different addresses, all
    /// below the first unallocated word: allocated blocks never overlap.
    pub proof fn law_blocks_never_overlap(h: Self, p: Pointer, q: Pointer)
        requires
            h.wf(),
            address_of(h.table(), p) is Ok,
            address_of(h.table(), q) is Ok,
        ensures
            (p.block != q.block || p.offset != q.offset) ==> address_of(h.table(), p) != address_of(h.table(), q),
            address_of(h.table(), p)->Ok_0 < h.next_address(),
    {
        lemma_addresses_distinct(h.table(), h.next_address() as int, p, q);
    }

}

} // verus!
