//! A heap with two halves: when it runs out of blocks or words, it copies the
//! reachable blocks into the other half and continues there.
use vstd::prelude::*;

use crate::block_table::{
    address_of, block_ptr, blocks_disjoint, blocks_within, copies_in_use, first_free, in_use,
    lemma_first_free, lemma_words_below_fill, lemma_words_below_nonneg, words_allocated,
    words_below, BlockInfo, BlockTable,
};
use crate::once_and_done::{lemma_addresses_distinct, load_outcome, store_outcome, zero_from};
use crate::independent_elements_from;
use crate::pointer::{HeapError, Pointer, Tracer};
use crate::ram_heap::{overwrite, words_at, RamHeap};

verus! {

/// Block `k` is allocated in `t` and marked in use in `used`.
pub open spec fn live(t: Seq<Option<BlockInfo>>, used: Seq<bool>, k: int) -> bool {
    &&& 0 <= k < t.len()
    &&& k < used.len()
    &&& used[k]
    &&& t[k] is Some
}

/// The number of words of the live blocks below `n`.
pub open spec fn live_words_below(t: Seq<Option<BlockInfo>>, used: Seq<bool>, n: int) -> int
    decreases n,
{
    if n <= 0 {
        0
    } else {
        live_words_below(t, used, n - 1) + if live(t, used, n - 1) {
            t[n - 1]->Some_0.size as int
        } else {
            0
        }
    }
}

/// The table after a collection: each live block follows the live blocks of
/// lower number, has been copied once more, and every other block is free.
pub open spec fn collected_table(t: Seq<Option<BlockInfo>>, used: Seq<bool>) -> Seq<Option<BlockInfo>> {
    Seq::new(
        t.len(),
        |k: int|
            if live(t, used, k) {
                Some(
                    BlockInfo {
                        start: live_words_below(t, used, k) as usize,
                        size: t[k]->Some_0.size,
                        num_times_copied: (t[k]->Some_0.num_times_copied + 1) as usize,
                    },
                )
            } else {
                None
            },
    )
}

/// The words of the block described by `info`.
pub open spec fn block_words(memory: Seq<u64>, info: BlockInfo) -> Seq<u64> {
    words_at(memory, info.start as int, info.size as int)
}

/// Every allocated block has been copied fewer than `bound` times.
pub open spec fn copies_below(t: Seq<Option<BlockInfo>>, bound: int) -> bool {
    forall|k: int| 0 <= k < t.len() && #[trigger] t[k] is Some ==> t[k]->Some_0.num_times_copied < bound
}

/// The copy count of block `k`, zero when it is free.
pub open spec fn copies_of(t: Seq<Option<BlockInfo>>, k: int) -> int {
    if t[k] is Some {
        t[k]->Some_0.num_times_copied as int
    } else {
        0
    }
}

/// No allocated block of `u` has been copied more than `d` times more than in `t`.
pub open spec fn copies_grown(t: Seq<Option<BlockInfo>>, u: Seq<Option<BlockInfo>>, d: int) -> bool {
    forall|k: int| 0 <= k < u.len() && #[trigger] u[k] is Some ==> u[k]->Some_0.num_times_copied <= copies_of(t, k) + d
}

pub proof fn lemma_words_below_mono(t: Seq<Option<BlockInfo>>, n: int, m: int)
    requires
        n <= m,
    ensures
        words_below(t, n) <= words_below(t, m),
    decreases m - n,
{
    if m > n {
        lemma_words_below_mono(t, n, m - 1);
    }
}

pub proof fn lemma_live_words_mono(t: Seq<Option<BlockInfo>>, used: Seq<bool>, n: int, m: int)
    requires
        n <= m,
    ensures
        live_words_below(t, used, n) <= live_words_below(t, used, m),
        0 <= live_words_below(t, used, n),
    decreases m - n,
{
    if m > n {
        lemma_live_words_mono(t, used, n, m - 1);
    } else {
        lemma_live_words_nonneg(t, used, n);
    }
}

pub proof fn lemma_live_words_nonneg(t: Seq<Option<BlockInfo>>, used: Seq<bool>, n: int)
    ensures
        0 <= live_words_below(t, used, n),
    decreases n,
{
    if n > 0 {
        lemma_live_words_nonneg(t, used, n - 1);
    }
}

pub proof fn lemma_live_words_le_words(t: Seq<Option<BlockInfo>>, used: Seq<bool>, n: int)
    ensures
        live_words_below(t, used, n) <= words_below(t, n),
    decreases n,
{
    if n > 0 {
        lemma_live_words_le_words(t, used, n - 1);
    }
}

pub proof fn lemma_collected_words(t: Seq<Option<BlockInfo>>, used: Seq<bool>, n: int)
    requires
        0 <= n <= t.len(),
    ensures
        words_below(collected_table(t, used), n) == live_words_below(t, used, n),
    decreases n,
{
    if n > 0 {
        lemma_collected_words(t, used, n - 1);
    }
}

/// The live blocks, laid out one after the other, end where the next one starts.
pub proof fn lemma_collected_layout(t: Seq<Option<BlockInfo>>, used: Seq<bool>, limit: int)
    requires
        limit == live_words_below(t, used, t.len() as int),
        limit <= usize::MAX,
        forall|k: int| 0 <= k < t.len() && #[trigger] t[k] is Some ==> 1 <= t[k]->Some_0.size,
    ensures
        blocks_within(collected_table(t, used), limit),
        blocks_disjoint(collected_table(t, used)),
{
    let c = collected_table(t, used);
    assert forall|i: int| 0 <= i < c.len() && #[trigger] c[i] is Some implies {
        &&& 1 <= c[i]->Some_0.size
        &&& c[i]->Some_0.start + c[i]->Some_0.size <= limit
    } by {
        lemma_live_words_mono(t, used, i + 1, t.len() as int);
        lemma_live_words_mono(t, used, i, t.len() as int);
    }
    assert forall|i: int, j: int|
        0 <= i < c.len() && 0 <= j < c.len() && i != j && #[trigger] c[i] is Some
            && #[trigger] c[j] is Some implies {
        ||| c[i]->Some_0.start + c[i]->Some_0.size <= c[j]->Some_0.start
        ||| c[j]->Some_0.start + c[j]->Some_0.size <= c[i]->Some_0.start
    } by {
        lemma_live_words_mono(t, used, i + 1, t.len() as int);
        lemma_live_words_mono(t, used, j + 1, t.len() as int);
        lemma_live_words_mono(t, used, i, t.len() as int);
        lemma_live_words_mono(t, used, j, t.len() as int);
        if i < j {
            lemma_live_words_mono(t, used, i + 1, j);
        } else {
            lemma_live_words_mono(t, used, j + 1, i);
        }
    }
}

/// A heap of two halves of `HEAP_SIZE` words with `MAX_BLOCKS` block numbers,
/// collected by copying the reachable blocks into the inactive half.
pub struct CopyingHeap<const HEAP_SIZE: usize, const MAX_BLOCKS: usize> {
    heaps: [RamHeap<HEAP_SIZE>; 2],
    block_info: BlockTable<MAX_BLOCKS>,
    active_heap: usize,
}

impl<const HEAP_SIZE: usize, const MAX_BLOCKS: usize> CopyingHeap<HEAP_SIZE, MAX_BLOCKS> {
    /// The block table: for each block number, where its block lies in the active half.
    pub closed spec fn table(&self) -> Seq<Option<BlockInfo>> {
        self.block_info@
    }

    /// Which half is active.
    pub closed spec fn active(&self) -> int {
        self.active_heap as int
    }

    /// The words of the active half.
    pub closed spec fn memory(&self) -> Seq<u64> {
        self.heaps[self.active_heap as int].words()
    }

    /// The first unallocated word of the active half.
    pub closed spec fn next_address(&self) -> nat {
        self.heaps[self.active_heap as int].next()
    }

    /// The words of the inactive half.
    pub closed spec fn spare_memory(&self) -> Seq<u64> {
        self.heaps[1 - self.active_heap].words()
    }

    /// The first unallocated word of the inactive half.
    pub closed spec fn spare_next(&self) -> nat {
        self.heaps[1 - self.active_heap].next()
    }

    /// The halves and the table keep their own invariants.
    pub closed spec fn parts_wf(&self) -> bool {
        &&& self.heaps[0].wf()
        &&& self.heaps[1].wf()
        &&& self.block_info.wf()
        &&& self.active_heap < 2
    }

    /// One entry per block number; every block lies in the allocated part of
    /// the active half, no two overlap, they hold no more words than are
    /// allocated, the rest of the active half is zero, and the inactive half
    /// is empty and zero.
    pub open spec fn wf(&self) -> bool {
        &&& self.parts_wf()
        &&& self.table().len() == MAX_BLOCKS
        &&& self.memory().len() == HEAP_SIZE
        &&& self.next_address() <= HEAP_SIZE
        &&& blocks_within(self.table(), self.next_address() as int)
        &&& blocks_disjoint(self.table())
        &&& words_allocated(self.table()) <= self.next_address()
        &&& zero_from(self.memory(), self.next_address() as int)
        &&& self.spare_next() == 0
        &&& self.spare_memory().len() == HEAP_SIZE
        &&& zero_from(self.spare_memory(), 0)
    }

    pub open spec fn load_spec(&self, p: Pointer) -> Result<u64, HeapError> {
        load_outcome(self.table(), self.memory(), p)
    }

    pub open spec fn store_spec(&self, p: Pointer, value: u64) -> (Result<(), HeapError>, Seq<u64>) {
        store_outcome(self.table(), self.memory(), p, value)
    }

    /// `after` is this heap once `value` has been written through `p`: the
    /// table and the allocation stay, and at most the designated word changes.
    pub open spec fn stored(&self, p: Pointer, value: u64, after: &Self) -> bool {
        &&& after.table() == self.table()
        &&& after.next_address() == self.next_address()
        &&& after.memory() == self.store_spec(p, value).1
        &&& after.active() == self.active()
    }

    /// `after` is this heap once the blocks marked in `used` have been copied
    /// to the other half and every other block freed.
    pub open spec fn collected(&self, used: Seq<bool>, after: &Self) -> bool {
        &&& after.wf()
        &&& after.active() == 1 - self.active()
        &&& after.table() == collected_table(self.table(), used)
        &&& after.next_address() == live_words_below(self.table(), used, self.table().len() as int)
        &&& forall|k: int|
            live(self.table(), used, k) ==> block_words(after.memory(), #[trigger] after.table()[k]->Some_0)
                == block_words(self.memory(), self.table()[k]->Some_0)
    }

    /// `after` is this heap with block `b` allocated to `n` words at the first unallocated word.
    pub open spec fn allocated(&self, b: usize, n: usize, after: &Self) -> bool {
        &&& after.table() == self.table().update(
            b as int,
            Some(BlockInfo { start: self.next_address() as usize, size: n, num_times_copied: 0 }),
        )
        &&& after.next_address() == self.next_address() + n
        &&& after.memory() == self.memory()
        &&& after.active() == self.active()
    }

    /// `after` holds what this heap holds.
    pub open spec fn same(&self, after: &Self) -> bool {
        &&& after.table() == self.table()
        &&& after.next_address() == self.next_address()
        &&& after.memory() == self.memory()
        &&& after.active() == self.active()
    }

    /// The effect of a request for `n` words once the free block number is
    /// known, given what the tracer reports if a collection is needed.
    pub open spec fn malloc_in_block(&self, b: usize, n: usize, used: Seq<bool>, after: &Self, r: Result<Pointer, HeapError>) -> bool {
        if self.next_address() + n <= HEAP_SIZE {
            self.allocated(b, n, after) && r == Ok::<Pointer, HeapError>(Pointer { block: b, offset: 0, size: n })
        } else {
            exists|mid: Self|
                {
                    &&& #[trigger] self.collected(used, &mid)
                    &&& if mid.next_address() + n <= HEAP_SIZE {
                        mid.allocated(b, n, after) && r == Ok::<Pointer, HeapError>(Pointer { block: b, offset: 0, size: n })
                    } else {
                        mid.same(after) && r == Err::<Pointer, HeapError>(HeapError::OutOfMemory)
                    }
                }
        }
    }

    /// The effect of a request for `n > 0` words, given what the tracer
    /// reports at the first and at the second collection, if there are any.
    pub open spec fn malloc_steps(&self, n: usize, used1: Seq<bool>, used2: Seq<bool>, after: &Self, r: Result<Pointer, HeapError>) -> bool {
        match first_free(self.table()) {
            Some(b) => self.malloc_in_block(b, n, used1, after, r),
            None => exists|mid: Self|
                {
                    &&& #[trigger] self.collected(used1, &mid)
                    &&& match first_free(mid.table()) {
                        None => mid.same(after) && r == Err::<Pointer, HeapError>(HeapError::OutOfBlocks),
                        Some(b) => mid.malloc_in_block(b, n, used2, after, r),
                    }
                },
        }
    }

    /// A heap with every block number free and every word zero.
    pub fn new() -> (h: Self)
        ensures
            h.wf(),
            h.table() == Seq::new(MAX_BLOCKS as nat, |i: int| None::<BlockInfo>),
            h.memory() == Seq::new(HEAP_SIZE as nat, |i: int| 0u64),
            h.next_address() == 0,
            h.active() == 0,
    {
        let h = CopyingHeap { heaps: [RamHeap::new(), RamHeap::new()], block_info: BlockTable::new(), active_heap: 0 };
        proof {
            lemma_words_below_zero(h.table(), MAX_BLOCKS as int);
        }
        h
    }

    /// Copies every allocated block that `blocks_used` marks to the inactive
    /// half, frees every other block, clears the active half and makes the
    /// inactive half active.
    pub fn collect_with(&mut self, blocks_used: &[bool]) -> (r: Result<(), HeapError>)
        requires
            old(self).wf(),
            blocks_used@.len() == MAX_BLOCKS,
            copies_below(old(self).table(), usize::MAX as int),
        ensures
            r == Ok::<(), HeapError>(()),
            old(self).collected(blocks_used@, final(self)),
            copies_grown(old(self).table(), final(self).table(), 1),
    {
        let ghost t = self.table();
        let ghost used = blocks_used@;
        let ghost src0 = self.memory();
        let ghost next0 = self.next_address();
        let active = self.active_heap;
        let inactive = (self.active_heap + 1) % 2;
        let pair = independent_elements_from(self.active_heap, inactive, &mut self.heaps);
        let (src, dest) = pair.unwrap();
        let mut new_block_info: BlockTable<MAX_BLOCKS> = BlockTable::new();
        proof {
            lemma_words_below_nonneg(t, t.len() as int);
            lemma_live_words_le_words(t, used, t.len() as int);
        }
        let mut i: usize = 0;
        while i < MAX_BLOCKS
            invariant
                i <= MAX_BLOCKS,
                t.len() == MAX_BLOCKS,
                used.len() == MAX_BLOCKS,
                blocks_used@ == used,
                self.block_info@ == t,
                copies_below(t, usize::MAX as int),
                src.wf(),
                src.words() == src0,
                src.next() == next0,
                next0 <= HEAP_SIZE,
                blocks_within(t, next0 as int),
                words_allocated(t) <= next0,
                dest.wf(),
                dest.next() == live_words_below(t, used, i as int),
                zero_from(dest.words(), dest.next() as int),
                new_block_info.wf(),
                new_block_info@ == Seq::new(
                    MAX_BLOCKS as nat,
                    |k: int| if k < i { collected_table(t, used)[k] } else { None },
                ),
                forall|k: int|
                    0 <= k < i && live(t, used, k) ==> block_words(dest.words(), #[trigger] collected_table(t, used)[k]->Some_0)
                        == block_words(src0, t[k]->Some_0),
            decreases MAX_BLOCKS - i,
        {
            if blocks_used[i] {
                if let Some(block) = self.block_info.get(i) {
                    let ghost before = dest.words();
                    let ghost before_next = dest.next();
                    proof {
                        lemma_live_words_le_words(t, used, i as int + 1);
                        lemma_words_below_mono(t, i as int + 1, t.len() as int);
                        assert(t[i as int] is Some);
                    }
                    let copied = match src.copy(&block, dest) {
                        Ok(c) => c,
                        Err(e) => {
                            return Err(e);
                        },
                    };
                    new_block_info.set(i, Some(copied));
                    proof {
                        assert forall|k: int|
                            0 <= k < i + 1 && live(t, used, k) implies block_words(dest.words(), #[trigger] collected_table(t, used)[k]->Some_0)
                                == block_words(src0, t[k]->Some_0) by {
                            if k < i {
                                let c = collected_table(t, used)[k]->Some_0;
                                lemma_live_words_mono(t, used, k + 1, i as int);
                                lemma_live_words_nonneg(t, used, k);
                                assert(c.start == live_words_below(t, used, k));
                                assert(c.start + c.size <= before_next);
                                assert(block_words(dest.words(), collected_table(t, used)[k]->Some_0)
                                    =~= block_words(before, collected_table(t, used)[k]->Some_0));
                            } else {
                                assert(block_words(dest.words(), collected_table(t, used)[k]->Some_0)
                                    =~= block_words(src0, t[k]->Some_0));
                            }
                        }
                    }
                }
            }
            i = i + 1;
            assert(new_block_info@ =~= Seq::new(
                MAX_BLOCKS as nat,
                |k: int| if k < i { collected_table(t, used)[k] } else { None },
            ));
        }
        src.zero_fill();
        src.clear();
        self.block_info = new_block_info;
        self.active_heap = inactive;
        proof {
            assert(self.block_info@ =~= collected_table(t, used));
            lemma_collected_words(t, used, t.len() as int);
            lemma_collected_layout(t, used, self.next_address() as int);
        }
        Ok(())
    }

    /// Runs the tracer and collects the blocks it reports.
    pub fn collect<T: Tracer>(&mut self, tracer: &T) -> (r: Result<(), HeapError>)
        requires
            old(self).wf(),
            copies_below(old(self).table(), usize::MAX as int),
        ensures
            r == Ok::<(), HeapError>(()),
            exists|used: Seq<bool>| used.len() == MAX_BLOCKS && #[trigger] old(self).collected(used, final(self)),
            copies_grown(old(self).table(), final(self).table(), 1),
    {
        let mut blocks_used: Vec<bool> = Vec::new();
        let mut i: usize = 0;
        while i < MAX_BLOCKS
            invariant
                i <= MAX_BLOCKS,
                blocks_used@.len() == i,
                forall|j: int| 0 <= j < i ==> !blocks_used@[j],
            decreases MAX_BLOCKS - i,
        {
            blocks_used.push(false);
            i = i + 1;
        }
        tracer.trace(blocks_used.as_mut_slice());
        let r = self.collect_with(blocks_used.as_slice());
        assert(old(self).collected(blocks_used@, self));
        r
    }

    /// The address that `p` designates.
    pub fn address(&self, p: Pointer) -> (r: Result<usize, HeapError>)
        requires
            self.wf(),
            0 < MAX_BLOCKS,
        ensures
            r == address_of(self.table(), p),
    {
        self.block_info.address(p)
    }

    /// The word that `p` designates.
    pub fn load(&self, p: Pointer) -> (r: Result<u64, HeapError>)
        requires
            self.wf(),
            0 < MAX_BLOCKS,
        ensures
            r == self.load_spec(p),
    {
        match self.block_info.address(p) {
            Ok(address) => self.heaps[self.active_heap].load(address),
            Err(e) => Err(e),
        }
    }

    /// Writes `value` into the word that `p` designates.
    pub fn store(&mut self, p: Pointer, value: u64) -> (r: Result<(), HeapError>)
        requires
            old(self).wf(),
            0 < MAX_BLOCKS,
        ensures
            final(self).wf(),
            r == old(self).store_spec(p, value).0,
            old(self).stored(p, value, final(self)),
    {
        match self.block_info.address(p) {
            Ok(address) => {
                let active = self.active_heap;
                self.heaps[active].store(address, value)
            },
            Err(e) => Err(e),
        }
    }

    /// The allocated block numbers, in increasing order.
    pub fn blocks_in_use(&self) -> (r: Vec<usize>)
        ensures
            r@ == in_use(self.table()),
    {
        self.block_info.blocks_in_use()
    }

    /// The number of allocated blocks.
    pub fn num_allocated_blocks(&self) -> (n: usize)
        ensures
            n == in_use(self.table()).len(),
    {
        self.block_info.blocks_in_use().len()
    }

    /// The pointer to the first word of block `block`, when it is allocated.
    pub fn allocated_block_ptr(&self, block: usize) -> (r: Option<Pointer>)
        ensures
            r == block_ptr(self.table(), block),
    {
        self.block_info.allocated_block_ptr(block)
    }

    /// Each allocated block number with the number of times its block was copied.
    pub fn blocks_num_copies(&self) -> (r: Vec<(usize, usize)>)
        ensures
            r@ == copies_in_use(self.table()),
    {
        self.block_info.blocks_num_copies()
    }

    /// Whether the inactive half is empty, as every collection leaves it.
    pub fn assert_no_strays(&self) -> (ok: bool)
        requires
            self.wf(),
        ensures
            ok == (self.spare_next() == 0),
            ok,
    {
        self.heaps[(self.active_heap + 1) % 2].next_address() == 0
    }

    /// Allocates `num_words` words of the active half to the free block `b`.
    fn allocate_in(&mut self, b: usize, num_words: usize) -> (r: Result<Pointer, HeapError>)
        requires
            old(self).wf(),
            b < MAX_BLOCKS,
            old(self).table()[b as int] is None,
            num_words > 0,
        ensures
            final(self).wf(),
            old(self).next_address() + num_words <= HEAP_SIZE ==> old(self).allocated(b, num_words, final(self))
                && r == Ok::<Pointer, HeapError>(Pointer { block: b, offset: 0, size: num_words }),
            old(self).next_address() + num_words > HEAP_SIZE ==> old(self).same(final(self))
                && r == Err::<Pointer, HeapError>(HeapError::OutOfMemory),
            copies_grown(old(self).table(), final(self).table(), 0),
    {
        let ghost t0 = self.table();
        let active = self.active_heap;
        let start = self.heaps[active].malloc(num_words)?;
        let info = BlockInfo { start, size: num_words, num_times_copied: 0 };
        self.block_info.set(b, Some(info));
        proof {
            lemma_words_below_fill(t0, b as int, info, t0.len() as int);
            assert forall|i: int, j: int|
                0 <= i < self.table().len() && 0 <= j < self.table().len() && i != j
                    && #[trigger] self.table()[i] is Some && #[trigger] self.table()[j] is Some implies {
                    ||| self.table()[i]->Some_0.start + self.table()[i]->Some_0.size <= self.table()[j]->Some_0.start
                    ||| self.table()[j]->Some_0.start + self.table()[j]->Some_0.size <= self.table()[i]->Some_0.start
                } by {
                if i != b as int && j != b as int {
                    assert(t0[i] is Some && t0[j] is Some);
                } else if i == b as int {
                    assert(t0[j] is Some);
                } else {
                    assert(t0[i] is Some);
                }
            }
            assert forall|i: int| 0 <= i < self.table().len() && #[trigger] self.table()[i] is Some
                implies self.table()[i]->Some_0.start + self.table()[i]->Some_0.size <= usize::MAX by {
                if i != b as int {
                    assert(t0[i] is Some);
                }
            }
        }
        Ok(Pointer::new(b, num_words))
    }

    /// Allocates `num_words` words to the free block `b`, collecting first
    /// when the active half has no room.
    fn malloc_in<T: Tracer>(&mut self, b: usize, num_words: usize, tracer: &T) -> (r: Result<Pointer, HeapError>)
        requires
            old(self).wf(),
            b < MAX_BLOCKS,
            old(self).table()[b as int] is None,
            num_words > 0,
            copies_below(old(self).table(), usize::MAX as int),
        ensures
            final(self).wf(),
            exists|used: Seq<bool>| used.len() == MAX_BLOCKS && #[trigger] old(self).malloc_in_block(b, num_words, used, final(self), r),
            copies_grown(old(self).table(), final(self).table(), 1),
    {
        let ghost h0 = *self;
        match self.allocate_in(b, num_words) {
            Ok(p) => {
                assert(h0.malloc_in_block(b, num_words, Seq::new(MAX_BLOCKS as nat, |i: int| false), self, Ok::<Pointer, HeapError>(p)));
                Ok(p)
            },
            Err(e) => {
                let ghost hm = *self;
                let _ = self.collect(tracer);
                let ghost h1 = *self;
                let ghost used = choose|used: Seq<bool>| used.len() == MAX_BLOCKS && #[trigger] hm.collected(used, &h1);
                assert(hm.collected(used, &h1));
                assert(h0.collected(used, &h1));
                let r = self.allocate_in(b, num_words);
                assert(h0.malloc_in_block(b, num_words, used, self, r));
                r
            },
        }
    }

    /// Allocates a block of `num_words` words in the lowest free block number,
    /// collecting with what `tracer` reports when no block number or no word is free.
    pub fn malloc<T: Tracer>(&mut self, num_words: usize, tracer: &T) -> (r: Result<Pointer, HeapError>)
        requires
            old(self).wf(),
            copies_below(old(self).table(), usize::MAX - 1),
        ensures
            final(self).wf(),
            num_words == 0 ==> r == Err::<Pointer, HeapError>(HeapError::ZeroSizeRequest) && old(self).same(final(self)),
            num_words > 0 ==> exists|used1: Seq<bool>, used2: Seq<bool>|
                used1.len() == MAX_BLOCKS && used2.len() == MAX_BLOCKS
                    && #[trigger] old(self).malloc_steps(num_words, used1, used2, final(self), r),
            copies_grown(old(self).table(), final(self).table(), 2),
    {
        if num_words == 0 {
            return Err(HeapError::ZeroSizeRequest);
        }
        let ghost h0 = *self;
        proof {
            lemma_first_free(self.table());
        }
        match self.block_info.available_block() {
            Some(b) => {
                let r = self.malloc_in(b, num_words, tracer);
                let ghost used = choose|used: Seq<bool>| used.len() == MAX_BLOCKS && #[trigger] h0.malloc_in_block(b, num_words, used, self, r);
                assert(h0.malloc_steps(num_words, used, used, self, r));
                r
            },
            None => {
                let _ = self.collect(tracer);
                let ghost h1 = *self;
                let ghost used1 = choose|used: Seq<bool>| used.len() == MAX_BLOCKS && #[trigger] h0.collected(used, &h1);
                assert(h0.collected(used1, &h1));
                proof {
                    lemma_first_free(self.table());
                    assert forall|k: int| 0 <= k < self.table().len() && #[trigger] self.table()[k] is Some
                        implies self.table()[k]->Some_0.num_times_copied < usize::MAX by {
                        assert(live(h0.table(), used1, k));
                        assert(h0.table()[k] is Some);
                    }
                }
                match self.block_info.available_block() {
                    Some(b) => {
                        let r = self.malloc_in(b, num_words, tracer);
                        let ghost used2 = choose|used: Seq<bool>| used.len() == MAX_BLOCKS && #[trigger] h1.malloc_in_block(b, num_words, used, self, r);
                        assert(h0.malloc_steps(num_words, used1, used2, self, r));
                        r
                    },
                    None => {
                        let r = Err(HeapError::OutOfBlocks);
                        assert(h0.malloc_steps(num_words, used1, used1, self, r));
                        r
                    },
                }
            },
        }
    }
}

impl<const HEAP_SIZE: usize, const MAX_BLOCKS: usize> CopyingHeap<HEAP_SIZE, MAX_BLOCKS> {
    /// A store through a valid pointer is read back by a load through it.
    pub proof fn law_store_then_load(h: Self, p: Pointer, value: u64, after: Self)
        requires
            h.wf(),
            h.store_spec(p, value).0 is Ok,
            h.stored(p, value, &after),
        ensures
            after.load_spec(p) == Ok::<u64, HeapError>(value),
    {
    }

    /// A store through one pointer leaves every word that another pointer designates as it was.
    pub proof fn law_store_keeps_other_words(h: Self, p: Pointer, q: Pointer, value: u64, after: Self)
        requires
            h.wf(),
            h.stored(p, value, &after),
            p.block != q.block || p.offset != q.offset,
        ensures
            after.load_spec(q) == h.load_spec(q),
    {
        if address_of(h.table(), p) is Ok && address_of(h.table(), q) is Ok {
            lemma_addresses_distinct(h.table(), h.next_address() as int, p, q);
        }
    }

    /// Valid pointers to different words designate different addresses, all
    /// below the first unallocated word: allocated blocks never overlap.
    pub proof fn law_blocks_never_overlap(h: Self, p: Pointer, q: Pointer)
        requires
            h.wf(),
            address_of(h.table(), p) is Ok,
            address_of(h.table(), q) is Ok,
        ensures
            (p.block != q.block || p.offset != q.offset) ==> address_of(h.table(), p) != address_of(h.table(), q),
            address_of(h.table(), p)->Ok_0 < h.next_address(),
    {
        lemma_addresses_distinct(h.table(), h.next_address() as int, p, q);
    }

    /// A collection leaves every word of a block that was marked in use as it was.
    pub proof fn law_collect_keeps_reachable(h: Self, used: Seq<bool>, after: Self, p: Pointer)
        requires
            h.wf(),
            h.collected(used, &after),
            used.len() == MAX_BLOCKS,
            p.block < MAX_BLOCKS,
            used[p.block as int],
        ensures
            after.load_spec(p) == h.load_spec(p),
    {
        let k = p.block as int;
        if h.table()[k] is Some {
            assert(live(h.table(), used, k));
            let old_info = h.table()[k]->Some_0;
            let new_info = after.table()[k]->Some_0;
            if p.offset < old_info.size {
                assert(block_words(after.memory(), new_info)[p.offset as int] == block_words(h.memory(), old_info)[p.offset as int]);
                lemma_live_words_mono(h.table(), used, k + 1, MAX_BLOCKS as int);
            }
        }
    }

    /// A `malloc_in_block` step keeps every word of an allocated block
    /// marked in `used`.
    proof fn lemma_malloc_in_block_keeps(h: Self, b: usize, n: usize, used: Seq<bool>, after: Self, r: Result<Pointer, HeapError>, p: Pointer)
        requires
            h.wf(),
            used.len() == MAX_BLOCKS,
            b < MAX_BLOCKS,
            h.table()[b as int] is None,
            h.malloc_in_block(b, n, used, &after, r),
            p.block < MAX_BLOCKS,
            h.table()[p.block as int] is Some,
            used[p.block as int],
        ensures
            after.load_spec(p) == h.load_spec(p),
    {
        if h.next_address() + n <= HEAP_SIZE {
            assert(after.table()[p.block as int] == h.table()[p.block as int]);
        } else {
            let mid = choose|mid: Self|
                {
                    &&& #[trigger] h.collected(used, &mid)
                    &&& if mid.next_address() + n <= HEAP_SIZE {
                        mid.allocated(b, n, &after) && r == Ok::<Pointer, HeapError>(Pointer { block: b, offset: 0, size: n })
                    } else {
                        mid.same(&after) && r == Err::<Pointer, HeapError>(HeapError::OutOfMemory)
                    }
                };
            Self::law_collect_keeps_reachable(h, used, mid, p);
            assert(after.table()[p.block as int] == mid.table()[p.block as int]);
        }
    }

    /// A successful `malloc_in_block` step allocates block `b` to `n` words.
    proof fn lemma_malloc_in_block_ok(h: Self, b: usize, n: usize, used: Seq<bool>, after: Self, p: Pointer)
        requires
            h.wf(),
            used.len() == MAX_BLOCKS,
            b < MAX_BLOCKS,
            h.malloc_in_block(b, n, used, &after, Ok::<Pointer, HeapError>(p)),
        ensures
            p == (Pointer { block: b, offset: 0, size: n }),
            after.table()[b as int] is Some,
            after.table()[b as int]->Some_0.size == n,
    {
        if h.next_address() + n > HEAP_SIZE {
            let mid = choose|mid: Self|
                {
                    &&& #[trigger] h.collected(used, &mid)
                    &&& if mid.next_address() + n <= HEAP_SIZE {
                        mid.allocated(b, n, &after) && Ok::<Pointer, HeapError>(p) == Ok::<Pointer, HeapError>(Pointer { block: b, offset: 0, size: n })
                    } else {
                        mid.same(&after) && Ok::<Pointer, HeapError>(p) == Err::<Pointer, HeapError>(HeapError::OutOfMemory)
                    }
                };
            assert(mid.table().len() == MAX_BLOCKS);
        }
    }

    /// Across a whole `malloc`, a block that was allocated before and that
    /// both reports of the tracer mark in use keeps every word that a load
    /// gives back.
    pub proof fn law_malloc_keeps_marked_blocks(
        h: Self,
        n: usize,
        used1: Seq<bool>,
        used2: Seq<bool>,
        after: Self,
        r: Result<Pointer, HeapError>,
        p: Pointer,
    )
        requires
            h.wf(),
            used1.len() == MAX_BLOCKS,
            used2.len() == MAX_BLOCKS,
            h.malloc_steps(n, used1, used2, &after, r),
            p.block < MAX_BLOCKS,
            h.table()[p.block as int] is Some,
            used1[p.block as int],
            used2[p.block as int],
        ensures
            after.load_spec(p) == h.load_spec(p),
    {
        lemma_first_free(h.table());
        match first_free(h.table()) {
            Some(b) => {
                Self::lemma_malloc_in_block_keeps(h, b, n, used1, after, r, p);
            },
            None => {
                let mid = choose|mid: Self|
                    {
                        &&& #[trigger] h.collected(used1, &mid)
                        &&& match first_free(mid.table()) {
                            None => mid.same(&after) && r == Err::<Pointer, HeapError>(HeapError::OutOfBlocks),
                            Some(b) => mid.malloc_in_block(b, n, used2, &after, r),
                        }
                    };
                Self::law_collect_keeps_reachable(h, used1, mid, p);
                assert(live(h.table(), used1, p.block as int));
                lemma_first_free(mid.table());
                match first_free(mid.table()) {
                    Some(b) => {
                        Self::lemma_malloc_in_block_keeps(mid, b, n, used2, after, r, p);
                    },
                    None => {},
                }
            },
        }
    }

    /// A successful `malloc` gives the pointer to the first of `n` words of a
    /// block, and no word of that block is a word of another allocated block.
    pub proof fn law_malloc_result_overlaps_nothing(
        h: Self,
        n: usize,
        used1: Seq<bool>,
        used2: Seq<bool>,
        after: Self,
        p: Pointer,
        q: Pointer,
        o: usize,
    )
        requires
            h.wf(),
            after.wf(),
            used1.len() == MAX_BLOCKS,
            used2.len() == MAX_BLOCKS,
            h.malloc_steps(n, used1, used2, &after, Ok::<Pointer, HeapError>(p)),
        ensures
            p.offset == 0 && p.size == n,
            o < n ==> address_of(after.table(), Pointer { block: p.block, offset: o, size: n }) is Ok,
            (o < n && q.block != p.block && address_of(after.table(), q) is Ok)
                ==> address_of(after.table(), Pointer { block: p.block, offset: o, size: n }) != address_of(after.table(), q),
    {
        lemma_first_free(h.table());
        match first_free(h.table()) {
            Some(b) => {
                Self::lemma_malloc_in_block_ok(h, b, n, used1, after, p);
            },
            None => {
                let mid = choose|mid: Self|
                    {
                        &&& #[trigger] h.collected(used1, &mid)
                        &&& match first_free(mid.table()) {
                            None => mid.same(&after) && Ok::<Pointer, HeapError>(p) == Err::<Pointer, HeapError>(HeapError::OutOfBlocks),
                            Some(b) => mid.malloc_in_block(b, n, used2, &after, Ok::<Pointer, HeapError>(p)),
                        }
                    };
                lemma_first_free(mid.table());
                let b = first_free(mid.table())->Some_0;
                Self::lemma_malloc_in_block_ok(mid, b, n, used2, after, p);
            },
        }
        let pn = Pointer { block: p.block, offset: o, size: n };
        if o < n && q.block != p.block && address_of(after.table(), q) is Ok {
            Self::law_blocks_never_overlap(after, pn, q);
        }
    }

    /// A collection frees every block that was not marked in use.
    pub proof fn law_collect_frees_unreachable(h: Self, used: Seq<bool>, after: Self, p: Pointer)
        requires
            h.wf(),
            h.collected(used, &after),
            used.len() == MAX_BLOCKS,
            p.block < MAX_BLOCKS,
            !used[p.block as int],
        ensures
            after.load_spec(p) == Err::<u64, HeapError>(HeapError::UnallocatedBlock(p.block)),
    {
    }

    /// After any operation the inactive half is empty: no block is left behind.
    pub proof fn law_no_strays(h: Self)
        requires
            h.wf(),
        ensures
            h.spare_next() == 0,
            forall|a: int| 0 <= a < h.spare_memory().len() ==> #[trigger] h.spare_memory()[a] == 0,
    {
    }

    /// A newly allocated block reads as zeros.
    pub proof fn law_fresh_block_is_zero(h: Self, b: usize, n: usize, after: Self, i: usize)
        requires
            h.wf(),
            h.allocated(b, n, &after),
            b < MAX_BLOCKS,
            h.next_address() + n <= HEAP_SIZE,
            i < n,
        ensures
            after.load_spec(Pointer { block: b, offset: i, size: n }) == Ok::<u64, HeapError>(0),
    {
        assert(after.table()[b as int] == Some(BlockInfo { start: h.next_address() as usize, size: n, num_times_copied: 0 }));
    }
}

pub proof fn lemma_words_below_zero(t: Seq<Option<BlockInfo>>, n: int)
    requires
        n <= t.len(),
        forall|k: int| 0 <= k < t.len() ==> #[trigger] t[k] is None,
    ensures
        words_below(t, n) == 0,
    decreases n,
{
    if n > 0 {
        lemma_words_below_zero(t, n - 1);
    }
}

} // verus!
