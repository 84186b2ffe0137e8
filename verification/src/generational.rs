//! A generational heap: young blocks live in a pair of generation 0 halves
//! and are copied between them at each collection; a block that has been
//! copied `MAX_COPIES` times moves on to a pair of generation 1 halves, which
//! are collected only when they run out of room. A collection leaves the
//! table entries of unmarked blocks in place.
use vstd::prelude::*;

use crate::block_table::{
    address_of, block_ptr, blocks_within, copies_in_use, first_free, in_use, lemma_first_free,
    BlockInfo, BlockTable,
};
use crate::copying::{copies_below, copies_grown, copies_of};
use crate::independent_elements_from;
use crate::pointer::{HeapError, Pointer, Tracer};
use crate::ram_heap::{copy_outcome, overwrite, readable, words_at, RamHeap};

verus! {

/// The words of a heap and its first unallocated address.
pub struct Mem {
    pub words: Seq<u64>,
    pub next: nat,
}

pub open spec fn mem_of<const HEAP_SIZE: usize>(h: RamHeap<HEAP_SIZE>) -> Mem {
    Mem { words: h.words(), next: h.next() }
}

/// `m` with every word freed.
pub open spec fn cleared(m: Mem) -> Mem {
    Mem { words: m.words, next: 0 }
}

/// Copying the block `info` out of `src` into `dest`: the result and the new `dest`.
pub open spec fn copy_into(src: Mem, info: BlockInfo, dest: Mem, limit: nat) -> (Result<BlockInfo, HeapError>, Mem) {
    let out = copy_outcome(src.words, src.next, info, dest.words, dest.next, limit);
    (out.0, Mem { words: out.1, next: out.2 })
}

/// Block `k` of `t` is marked in use and has been copied more than `max_copies` times.
pub open spec fn gen1_candidate(used: Seq<bool>, t: Seq<Option<BlockInfo>>, k: int, max_copies: nat) -> bool {
    &&& 0 <= k < t.len()
    &&& k < used.len()
    &&& used[k]
    &&& t[k] is Some
    &&& t[k]->Some_0.num_times_copied > max_copies
}

/// A generation 1 collection over the block numbers below `n`: each block in
/// use that has been copied more than `max_copies` times is copied from `src`
/// into `dest`. The table and `dest` it leaves, or the error, the table and
/// `dest` at the point where a copy failed.
pub open spec fn gen1_fold(
    used: Seq<bool>,
    t0: Seq<Option<BlockInfo>>,
    src: Mem,
    dest0: Mem,
    limit: nat,
    max_copies: nat,
    n: int,
) -> Result<(Seq<Option<BlockInfo>>, Mem), (HeapError, Seq<Option<BlockInfo>>, Mem)>
    decreases n,
{
    if n <= 0 {
        Ok((t0, dest0))
    } else {
        match gen1_fold(used, t0, src, dest0, limit, max_copies, n - 1) {
            Err(x) => Err(x),
            Ok(state) => {
                let t = state.0;
                let dest = state.1;
                if gen1_candidate(used, t, n - 1, max_copies) {
                    let out = copy_into(src, t[n - 1]->Some_0, dest, limit);
                    match out.0 {
                        Ok(info) => Ok((t.update(n - 1, Some(info)), out.1)),
                        Err(e) => Err((e, t, out.1)),
                    }
                } else {
                    Ok((t, dest))
                }
            },
        }
    }
}

/// Once a generation 1 collection has failed, it stays failed.
pub proof fn lemma_gen1_fold_err(
    used: Seq<bool>,
    t0: Seq<Option<BlockInfo>>,
    src: Mem,
    dest0: Mem,
    limit: nat,
    max_copies: nat,
    n: int,
    m: int,
)
    requires
        n <= m,
        gen1_fold(used, t0, src, dest0, limit, max_copies, n) is Err,
    ensures
        gen1_fold(used, t0, src, dest0, limit, max_copies, m) == gen1_fold(used, t0, src, dest0, limit, max_copies, n),
    decreases m - n,
{
    if m > n {
        lemma_gen1_fold_err(used, t0, src, dest0, limit, max_copies, n, m - 1);
    }
}

/// What a generation 0 collection carries from one block number to the next.
pub struct Gen0State {
    pub table: Seq<Option<BlockInfo>>,
    pub inactive_0: Mem,
    pub active_1: Mem,
    pub inactive_1: Mem,
    pub gen_1_collected: bool,
}

/// Block number `i` of a generation 0 collection that copies out of `active_0`.
pub open spec fn gen0_step(
    used: Seq<bool>,
    active_0: Mem,
    s: Gen0State,
    i: int,
    limit: nat,
    max_copies: nat,
) -> Result<Gen0State, (HeapError, Gen0State)> {
    if !(0 <= i < s.table.len() && i < used.len() && used[i] && s.table[i] is Some) {
        Ok(s)
    } else {
        let block = s.table[i]->Some_0;
        if block.num_times_copied == max_copies {
            if s.gen_1_collected {
                let out = copy_into(active_0, block, s.inactive_1, limit);
                match out.0 {
                    Ok(info) => Ok(Gen0State { table: s.table.update(i, Some(info)), inactive_1: out.1, ..s }),
                    Err(e) => Err((e, Gen0State { inactive_1: out.1, ..s })),
                }
            } else {
                let out = copy_into(active_0, block, s.active_1, limit);
                match out.0 {
                    Ok(info) => Ok(Gen0State { table: s.table.update(i, Some(info)), active_1: out.1, ..s }),
                    Err(HeapError::OutOfMemory) => match gen1_fold(
                        used,
                        s.table,
                        s.active_1,
                        s.inactive_1,
                        limit,
                        max_copies,
                        s.table.len() as int,
                    ) {
                        Err(x) => Err((x.0, Gen0State { table: x.1, inactive_1: x.2, ..s })),
                        Ok(g) => {
                            let moved = copy_into(active_0, block, g.1, limit);
                            let after = Gen0State {
                                table: g.0,
                                inactive_0: s.inactive_0,
                                active_1: cleared(s.active_1),
                                inactive_1: moved.1,
                                gen_1_collected: true,
                            };
                            match moved.0 {
                                Ok(info) => Ok(Gen0State { table: g.0.update(i, Some(info)), ..after }),
                                Err(e) => Err((e, after)),
                            }
                        },
                    },
                    Err(e) => Err((e, Gen0State { active_1: out.1, ..s })),
                }
            }
        } else if block.num_times_copied < max_copies {
            let out = copy_into(active_0, block, s.inactive_0, limit);
            match out.0 {
                Ok(info) => Ok(Gen0State { table: s.table.update(i, Some(info)), inactive_0: out.1, ..s }),
                Err(e) => Err((e, Gen0State { inactive_0: out.1, ..s })),
            }
        } else {
            Ok(s)
        }
    }
}

/// A generation 0 collection over the block numbers below `n`.
pub open spec fn gen0_fold(
    used: Seq<bool>,
    active_0: Mem,
    s0: Gen0State,
    limit: nat,
    max_copies: nat,
    n: int,
) -> Result<Gen0State, (HeapError, Gen0State)>
    decreases n,
{
    if n <= 0 {
        Ok(s0)
    } else {
        match gen0_fold(used, active_0, s0, limit, max_copies, n - 1) {
            Err(x) => Err(x),
            Ok(s) => gen0_step(used, active_0, s, n - 1, limit, max_copies),
        }
    }
}

/// Once a generation 0 collection has failed, it stays failed.
pub proof fn lemma_gen0_fold_err(
    used: Seq<bool>,
    active_0: Mem,
    s0: Gen0State,
    limit: nat,
    max_copies: nat,
    n: int,
    m: int,
)
    requires
        n <= m,
        gen0_fold(used, active_0, s0, limit, max_copies, n) is Err,
    ensures
        gen0_fold(used, active_0, s0, limit, max_copies, m) == gen0_fold(used, active_0, s0, limit, max_copies, n),
    decreases m - n,
{
    if m > n {
        lemma_gen0_fold_err(used, active_0, s0, limit, max_copies, n, m - 1);
    }
}

/// A heap with two generations of two halves of `HEAP_SIZE` words each and
/// `MAX_BLOCKS` block numbers; a block moves to generation 1 once it has been
/// copied `MAX_COPIES` times.
#[derive(Clone, Debug)]
pub struct GenerationalHeap<const HEAP_SIZE: usize, const MAX_BLOCKS: usize, const MAX_COPIES: usize> {
    gen_0: [RamHeap<HEAP_SIZE>; 2],
    gen_1: [RamHeap<HEAP_SIZE>; 2],
    block_info: BlockTable<MAX_BLOCKS>,
    active_gen_0: usize,
    active_gen_1: usize,
}

impl<const HEAP_SIZE: usize, const MAX_BLOCKS: usize, const MAX_COPIES: usize> GenerationalHeap<HEAP_SIZE, MAX_BLOCKS, MAX_COPIES> {
    /// The block table: for each block number, where its block lies.
    pub closed spec fn table(&self) -> Seq<Option<BlockInfo>> {
        self.block_info@
    }

    /// Generation 0 half `i`.
    pub closed spec fn gen0(&self, i: int) -> Mem {
        mem_of(self.gen_0[i])
    }

    /// Generation 1 half `i`.
    pub closed spec fn gen1(&self, i: int) -> Mem {
        mem_of(self.gen_1[i])
    }

    /// Which generation 0 half is active.
    pub closed spec fn active0(&self) -> int {
        self.active_gen_0 as int
    }

    /// Which generation 1 half is active.
    pub closed spec fn active1(&self) -> int {
        self.active_gen_1 as int
    }

    /// The halves and the table keep their own invariants.
    pub closed spec fn parts_wf(&self) -> bool {
        &&& self.gen_0[0].wf()
        &&& self.gen_0[1].wf()
        &&& self.gen_1[0].wf()
        &&& self.gen_1[1].wf()
        &&& self.block_info.wf()
        &&& self.active_gen_0 < 2
        &&& self.active_gen_1 < 2
    }

    /// One entry per block number, and every block holds at least one word and
    /// ends inside a half.
    pub open spec fn wf(&self) -> bool {
        &&& self.parts_wf()
        &&& self.table().len() == MAX_BLOCKS
        &&& blocks_within(self.table(), HEAP_SIZE as int)
        &&& 0 <= self.active0() < 2
        &&& 0 <= self.active1() < 2
        &&& forall|i: int| 0 <= i < 2 ==> (#[trigger] self.gen0(i)).words.len() == HEAP_SIZE && self.gen0(i).next <= HEAP_SIZE
        &&& forall|i: int| 0 <= i < 2 ==> (#[trigger] self.gen1(i)).words.len() == HEAP_SIZE && self.gen1(i).next <= HEAP_SIZE
    }

    /// The active half of the generation that block `e` belongs to.
    pub open spec fn home(&self, e: BlockInfo) -> Mem {
        if e.num_times_copied > MAX_COPIES {
            self.gen1(self.active1())
        } else {
            self.gen0(self.active0())
        }
    }

    /// Every allocated block whose number is in `live` lies in the allocated
    /// part of the active half of its generation, and no two of them in one
    /// generation share a word. (A collection leaves the entries of the blocks
    /// it was not told about in place, so only the blocks still in use keep
    /// this.)
    pub open spec fn layout_on(&self, live: Set<int>) -> bool {
        &&& forall|k: int| 0 <= k < self.table().len() && #[trigger] live.contains(k) && self.table()[k] is Some
            ==> lies_in(self.table()[k]->Some_0, self.home(self.table()[k]->Some_0))
        &&& forall|j: int, k: int|
            0 <= j < self.table().len() && 0 <= k < self.table().len() && j != k && #[trigger] live.contains(j)
                && #[trigger] live.contains(k) && self.table()[j] is Some && self.table()[k] is Some
                && (self.table()[j]->Some_0.num_times_copied > MAX_COPIES) == (self.table()[k]->Some_0.num_times_copied > MAX_COPIES)
                ==> apart(self.table()[j]->Some_0, self.table()[k]->Some_0)
    }

    /// The state a generation 0 collection starts from.
    pub open spec fn gen0_start(&self) -> Gen0State {
        Gen0State {
            table: self.table(),
            inactive_0: self.gen0(1 - self.active0()),
            active_1: self.gen1(self.active1()),
            inactive_1: self.gen1(1 - self.active1()),
            gen_1_collected: false,
        }
    }

    /// The outcome of a generation 0 collection of this heap with the blocks
    /// marked in `used`.
    pub open spec fn gen0_outcome(&self, used: Seq<bool>) -> Result<Gen0State, (HeapError, Gen0State)> {
        gen0_fold(used, self.gen0(self.active0()), self.gen0_start(), HEAP_SIZE as nat, MAX_COPIES as nat, MAX_BLOCKS as int)
    }

    /// `after` and `r` are this heap and the result once a generation 0
    /// collection with the blocks marked in `used` has run: on success the
    /// active generation 0 half is cleared and swapped, and so are the
    /// generation 1 halves when they were collected; on failure the table and
    /// the choice of halves stay, and the halves hold what was written before
    /// the failure.
    pub open spec fn gen0_collected(&self, used: Seq<bool>, after: &Self, r: Result<(), HeapError>) -> bool {
        let a0 = self.active0();
        let a1 = self.active1();
        match self.gen0_outcome(used) {
            Ok(s) => {
                &&& r == Ok::<(), HeapError>(())
                &&& after.table() == s.table
                &&& after.active0() == 1 - a0
                &&& after.active1() == if s.gen_1_collected { 1 - a1 } else { a1 }
                &&& after.gen0(a0) == cleared(self.gen0(a0))
                &&& after.gen0(1 - a0) == s.inactive_0
                &&& after.gen1(a1) == s.active_1
                &&& after.gen1(1 - a1) == s.inactive_1
            },
            Err(x) => {
                &&& r == Err::<(), HeapError>(x.0)
                &&& after.table() == self.table()
                &&& after.active0() == a0
                &&& after.active1() == a1
                &&& after.gen0(a0) == self.gen0(a0)
                &&& after.gen0(1 - a0) == x.1.inactive_0
                &&& after.gen1(a1) == x.1.active_1
                &&& after.gen1(1 - a1) == x.1.inactive_1
            },
        }
    }

    /// Generation 0 half `i` itself.
    pub closed spec fn heap0(&self, i: int) -> RamHeap<HEAP_SIZE> {
        self.gen_0[i]
    }

    /// Generation 1 half `i` itself.
    pub closed spec fn heap1(&self, i: int) -> RamHeap<HEAP_SIZE> {
        self.gen_1[i]
    }

    /// Mutable references to the active and the inactive half of each generation.
    pub fn active_inactive_gen_0_gen_1(&mut self) -> (r: (
        &mut RamHeap<HEAP_SIZE>,
        &mut RamHeap<HEAP_SIZE>,
        &mut RamHeap<HEAP_SIZE>,
        &mut RamHeap<HEAP_SIZE>,
    ))
        requires
            0 <= old(self).active0() < 2,
            0 <= old(self).active1() < 2,
        ensures
            *r.0 == old(self).heap0(old(self).active0()),
            *r.1 == old(self).heap0(1 - old(self).active0()),
            *r.2 == old(self).heap1(old(self).active1()),
            *r.3 == old(self).heap1(1 - old(self).active1()),
            final(self).heap0(old(self).active0()) == *final(r.0),
            final(self).heap0(1 - old(self).active0()) == *final(r.1),
            final(self).heap1(old(self).active1()) == *final(r.2),
            final(self).heap1(1 - old(self).active1()) == *final(r.3),
            final(self).table() == old(self).table(),
            final(self).active0() == old(self).active0(),
            final(self).active1() == old(self).active1(),
    {
        let inactive_0 = (self.active_gen_0 + 1) % 2;
        let inactive_1 = (self.active_gen_1 + 1) % 2;
        let (active_0, inactive_0) = independent_elements_from(self.active_gen_0, inactive_0, &mut self.gen_0).unwrap();
        let (active_1, inactive_1) = independent_elements_from(self.active_gen_1, inactive_1, &mut self.gen_1).unwrap();
        (active_0, inactive_0, active_1, inactive_1)
    }

    /// Block number `i` of a generation 0 collection: copies block `i` out of
    /// `active_0` when it is marked in use. Returns whether generation 1 has
    /// been collected.
    #[verifier::rlimit(40)]
    fn copy_one_gen_0(
        blocks_used: &[bool],
        i: usize,
        new_block_info: &mut BlockTable<MAX_BLOCKS>,
        active_0: &RamHeap<HEAP_SIZE>,
        inactive_0: &mut RamHeap<HEAP_SIZE>,
        active_1: &mut RamHeap<HEAP_SIZE>,
        inactive_1: &mut RamHeap<HEAP_SIZE>,
        gen_1_collected: bool,
    ) -> (r: Result<bool, HeapError>)
        requires
            blocks_used@.len() == MAX_BLOCKS,
            i < MAX_BLOCKS,
            old(new_block_info).wf(),
            old(new_block_info)@.len() == MAX_BLOCKS,
            blocks_within(old(new_block_info)@, HEAP_SIZE as int),
            old(new_block_info)@[i as int] is Some && old(new_block_info)@[i as int]->Some_0.num_times_copied <= MAX_COPIES
                ==> old(new_block_info)@[i as int]->Some_0.num_times_copied < usize::MAX,
            !gen_1_collected ==> copies_below(old(new_block_info)@, usize::MAX as int),
            active_0.wf(),
            old(inactive_0).wf(),
            old(active_1).wf(),
            old(inactive_1).wf(),
        ensures
            final(new_block_info).wf(),
            final(new_block_info)@.len() == MAX_BLOCKS,
            blocks_within(final(new_block_info)@, HEAP_SIZE as int),
            final(inactive_0).wf(),
            final(active_1).wf(),
            final(inactive_1).wf(),
            match gen0_step(
                blocks_used@,
                mem_of(*active_0),
                Gen0State {
                    table: old(new_block_info)@,
                    inactive_0: mem_of(*old(inactive_0)),
                    active_1: mem_of(*old(active_1)),
                    inactive_1: mem_of(*old(inactive_1)),
                    gen_1_collected,
                },
                i as int,
                HEAP_SIZE as nat,
                MAX_COPIES as nat,
            ) {
                Ok(s) => r == Ok::<bool, HeapError>(s.gen_1_collected) && final(new_block_info)@ == s.table
                    && mem_of(*final(inactive_0)) == s.inactive_0 && mem_of(*final(active_1)) == s.active_1
                    && mem_of(*final(inactive_1)) == s.inactive_1,
                Err(x) => r == Err::<bool, HeapError>(x.0) && mem_of(*final(inactive_0)) == x.1.inactive_0
                    && mem_of(*final(active_1)) == x.1.active_1 && mem_of(*final(inactive_1)) == x.1.inactive_1,
            },
            gen_1_collected && r is Ok ==> r == Ok::<bool, HeapError>(true),
            r is Ok ==> forall|k: int| 0 <= k < MAX_BLOCKS ==> {
                ||| #[trigger] final(new_block_info)@[k] == old(new_block_info)@[k]
                ||| k == i && blocks_used@[k] && old(new_block_info)@[k] is Some && final(new_block_info)@[k] is Some
                    && old(new_block_info)@[k]->Some_0.num_times_copied <= MAX_COPIES
                    && final(new_block_info)@[k]->Some_0.num_times_copied == old(new_block_info)@[k]->Some_0.num_times_copied + 1
                ||| !gen_1_collected && r == Ok::<bool, HeapError>(true) && gen1_candidate(blocks_used@, old(new_block_info)@, k, MAX_COPIES as nat)
                    && final(new_block_info)@[k] is Some
                    && final(new_block_info)@[k]->Some_0.num_times_copied == old(new_block_info)@[k]->Some_0.num_times_copied + 1
            },
    {
        if blocks_used[i] {
            if let Some(block) = new_block_info.get(i) {
                if block.num_times_copied == MAX_COPIES {
                    if gen_1_collected {
                        let copied = active_0.copy(&block, inactive_1)?;
                        new_block_info.set(i, Some(copied));
                        Ok(true)
                    } else {
                        match active_0.copy(&block, active_1) {
                            Ok(copied) => {
                                new_block_info.set(i, Some(copied));
                                Ok(false)
                            },
                            Err(HeapError::OutOfMemory) => {
                                Self::collect_gen_1(blocks_used, new_block_info, active_1, inactive_1)?;
                                let copied = active_0.copy(&block, inactive_1)?;
                                new_block_info.set(i, Some(copied));
                                Ok(true)
                            },
                            Err(e) => Err(e),
                        }
                    }
                } else if block.num_times_copied < MAX_COPIES {
                    let copied = active_0.copy(&block, inactive_0)?;
                    new_block_info.set(i, Some(copied));
                    Ok(gen_1_collected)
                } else {
                    Ok(gen_1_collected)
                }
            } else {
                Ok(gen_1_collected)
            }
        } else {
            Ok(gen_1_collected)
        }
    }

    /// The copying part of a generation 0 collection: goes through the block
    /// numbers in order and copies each block marked in `blocks_used` out of
    /// `active_0`, recording where it went in `new_block_info`. Returns
    /// whether generation 1 had to be collected.
    #[verifier::rlimit(100)]
    fn copy_reachable_gen_0(
        blocks_used: &[bool],
        new_block_info: &mut BlockTable<MAX_BLOCKS>,
        active_0: &RamHeap<HEAP_SIZE>,
        inactive_0: &mut RamHeap<HEAP_SIZE>,
        active_1: &mut RamHeap<HEAP_SIZE>,
        inactive_1: &mut RamHeap<HEAP_SIZE>,
    ) -> (r: Result<bool, HeapError>)
        requires
            blocks_used@.len() == MAX_BLOCKS,
            old(new_block_info).wf(),
            old(new_block_info)@.len() == MAX_BLOCKS,
            blocks_within(old(new_block_info)@, HEAP_SIZE as int),
            copies_below(old(new_block_info)@, usize::MAX - 1),
            active_0.wf(),
            old(inactive_0).wf(),
            old(active_1).wf(),
            old(inactive_1).wf(),
        ensures
            final(new_block_info).wf(),
            blocks_within(final(new_block_info)@, HEAP_SIZE as int),
            final(inactive_0).wf(),
            final(active_1).wf(),
            final(inactive_1).wf(),
            match gen0_fold(
                blocks_used@,
                mem_of(*active_0),
                Gen0State {
                    table: old(new_block_info)@,
                    inactive_0: mem_of(*old(inactive_0)),
                    active_1: mem_of(*old(active_1)),
                    inactive_1: mem_of(*old(inactive_1)),
                    gen_1_collected: false,
                },
                HEAP_SIZE as nat,
                MAX_COPIES as nat,
                MAX_BLOCKS as int,
            ) {
                Ok(s) => r == Ok::<bool, HeapError>(s.gen_1_collected) && final(new_block_info)@ == s.table
                    && mem_of(*final(inactive_0)) == s.inactive_0 && mem_of(*final(active_1)) == s.active_1
                    && mem_of(*final(inactive_1)) == s.inactive_1,
                Err(x) => r == Err::<bool, HeapError>(x.0) && mem_of(*final(inactive_0)) == x.1.inactive_0
                    && mem_of(*final(active_1)) == x.1.active_1 && mem_of(*final(inactive_1)) == x.1.inactive_1,
            },
            r is Ok ==> forall|k: int| 0 <= k < MAX_BLOCKS ==> (#[trigger] final(new_block_info)@[k] is Some) == old(new_block_info)@[k] is Some,
            r is Ok ==> forall|k: int| 0 <= k < MAX_BLOCKS && #[trigger] final(new_block_info)@[k] is Some
                ==> final(new_block_info)@[k]->Some_0.num_times_copied <= old(new_block_info)@[k]->Some_0.num_times_copied + 2,
    {
        let ghost used = blocks_used@;
        let ghost t0 = new_block_info@;
        let ghost act0m = mem_of(*active_0);
        let ghost s0 = Gen0State {
            table: new_block_info@,
            inactive_0: mem_of(*inactive_0),
            active_1: mem_of(*active_1),
            inactive_1: mem_of(*inactive_1),
            gen_1_collected: false,
        };
        let mut gen_1_collected = false;
        let mut i: usize = 0;
        while i < MAX_BLOCKS
            invariant
                i <= MAX_BLOCKS,
                blocks_used@ == used,
                used.len() == MAX_BLOCKS,
                t0 == old(new_block_info)@,
                t0.len() == MAX_BLOCKS,
                copies_below(t0, usize::MAX - 1),
                s0 == (Gen0State {
                    table: old(new_block_info)@,
                    inactive_0: mem_of(*old(inactive_0)),
                    active_1: mem_of(*old(active_1)),
                    inactive_1: mem_of(*old(inactive_1)),
                    gen_1_collected: false,
                }),
                active_0.wf(),
                inactive_0.wf(),
                active_1.wf(),
                inactive_1.wf(),
                mem_of(*active_0) == act0m,
                new_block_info.wf(),
                new_block_info@.len() == MAX_BLOCKS,
                blocks_within(new_block_info@, HEAP_SIZE as int),
                gen0_fold(used, act0m, s0, HEAP_SIZE as nat, MAX_COPIES as nat, i as int)
                    == Ok::<Gen0State, (HeapError, Gen0State)>(Gen0State {
                        table: new_block_info@,
                        inactive_0: mem_of(*inactive_0),
                        active_1: mem_of(*active_1),
                        inactive_1: mem_of(*inactive_1),
                        gen_1_collected,
                    }),
                forall|k: int| 0 <= k < MAX_BLOCKS ==> (#[trigger] new_block_info@[k] is Some) == t0[k] is Some,
                forall|k: int| 0 <= k < MAX_BLOCKS && #[trigger] new_block_info@[k] is Some
                    ==> new_block_info@[k]->Some_0.num_times_copied <= t0[k]->Some_0.num_times_copied + if gen_1_collected { 2int } else { 1int },
                forall|k: int| i <= k < MAX_BLOCKS ==> {
                    ||| #[trigger] new_block_info@[k] == t0[k]
                    ||| gen_1_collected && t0[k] is Some && t0[k]->Some_0.num_times_copied > MAX_COPIES
                        && (new_block_info@[k] is None || new_block_info@[k]->Some_0.num_times_copied > MAX_COPIES)
                },
            decreases MAX_BLOCKS - i,
        {
            let ghost t_cur = new_block_info@;
            let ghost g_cur = gen_1_collected;
            proof {
                if new_block_info@[i as int] is Some && new_block_info@[i as int]->Some_0.num_times_copied <= MAX_COPIES {
                    assert(new_block_info@[i as int] == t0[i as int]);
                }
            }
            match Self::copy_one_gen_0(blocks_used, i, new_block_info, active_0, inactive_0, active_1, inactive_1, gen_1_collected) {
                Ok(g) => {
                    gen_1_collected = g;
                },
                Err(e) => {
                    proof {
                        lemma_gen0_fold_err(used, act0m, s0, HEAP_SIZE as nat, MAX_COPIES as nat, i as int + 1, MAX_BLOCKS as int);
                    }
                    return Err(e);
                },
            }
            proof {
                assert forall|k: int| 0 <= k < MAX_BLOCKS && #[trigger] new_block_info@[k] is Some
                    implies new_block_info@[k]->Some_0.num_times_copied <= t0[k]->Some_0.num_times_copied + if gen_1_collected { 2int } else { 1int } by {
                    if new_block_info@[k] != t_cur[k] && k != i as int {
                        assert(t_cur[k] is Some);
                    }
                }
            }
            i = i + 1;
        }
        Ok(gen_1_collected)
    }

    /// A generation 0 collection with the blocks marked in `blocks_used`: each
    /// such block is copied to the inactive generation 0 half, or, once it has
    /// been copied `MAX_COPIES` times, to generation 1, which is collected
    /// first when it has no room. Blocks already in generation 1 stay where
    /// they are unless generation 1 is collected. Unmarked blocks keep their
    /// entries in the table.
    pub fn collect_gen_0_with(&mut self, blocks_used: &[bool]) -> (r: Result<(), HeapError>)
        requires
            old(self).wf(),
            blocks_used@.len() == MAX_BLOCKS,
            copies_below(old(self).table(), usize::MAX - 1),
        ensures
            final(self).wf(),
            old(self).gen0_collected(blocks_used@, final(self), r),
            forall|k: int| 0 <= k < MAX_BLOCKS ==> (#[trigger] final(self).table()[k] is Some) == old(self).table()[k] is Some,
            copies_grown(old(self).table(), final(self).table(), 2),
            r is Ok ==> forall|live: Set<int>|
                (forall|k: int| 0 <= k < MAX_BLOCKS && #[trigger] live.contains(k) ==> blocks_used@[k])
                    && #[trigger] old(self).layout_on(live) ==> final(self).layout_on(live),
            r is Ok ==> forall|p: Pointer|
                p.block < MAX_BLOCKS && blocks_used@[p.block as int] && #[trigger] old(self).load_spec(p) is Ok
                    ==> final(self).load_spec(p) == old(self).load_spec(p),
            r is Ok ==> forall|k: int|
                0 <= k < MAX_BLOCKS && blocks_used@[k] && #[trigger] old(self).table()[k] is Some
                    && old(self).table()[k]->Some_0.num_times_copied < MAX_COPIES
                    && lies_in(old(self).table()[k]->Some_0, old(self).gen0(old(self).active0())) ==> {
                    &&& final(self).table()[k] is Some
                    &&& final(self).table()[k]->Some_0.size == old(self).table()[k]->Some_0.size
                    &&& final(self).table()[k]->Some_0.num_times_copied == old(self).table()[k]->Some_0.num_times_copied + 1
                    &&& lies_in(final(self).table()[k]->Some_0, final(self).gen0(final(self).active0()))
                },
            r is Ok && final(self).active1() == old(self).active1() ==> forall|k: int|
                0 <= k < MAX_BLOCKS && #[trigger] old(self).table()[k] is Some
                    && old(self).table()[k]->Some_0.num_times_copied > MAX_COPIES ==> final(self).table()[k] == old(self).table()[k],
            r is Ok ==> forall|k: int| 0 <= k < MAX_BLOCKS && !blocks_used@[k] ==> #[trigger] final(self).table()[k] == old(self).table()[k],
            ({
                let t = old(self).table();
                &&& old(self).layout_on(marked(blocks_used@))
                &&& old(self).gen0(1 - old(self).active0()).next + marked_words(blocks_used@, t, MAX_COPIES as nat, 0, MAX_BLOCKS as int)
                    <= HEAP_SIZE
                &&& old(self).gen1(1 - old(self).active1()).next + marked_words(blocks_used@, t, MAX_COPIES as nat, 1, MAX_BLOCKS as int)
                    + marked_words(blocks_used@, t, MAX_COPIES as nat, 2, MAX_BLOCKS as int) <= HEAP_SIZE
            }) ==> r is Ok,
    {
        let ghost pre = *self;
        proof {
            let t = pre.table();
            if pre.layout_on(marked(blocks_used@))
                && pre.gen0(1 - pre.active0()).next + marked_words(blocks_used@, t, MAX_COPIES as nat, 0, MAX_BLOCKS as int) <= HEAP_SIZE
                && pre.gen1(1 - pre.active1()).next + marked_words(blocks_used@, t, MAX_COPIES as nat, 1, MAX_BLOCKS as int)
                    + marked_words(blocks_used@, t, MAX_COPIES as nat, 2, MAX_BLOCKS as int) <= HEAP_SIZE {
                Self::law_collect_gen_0_succeeds_when_marked_blocks_fit(pre, blocks_used@, pre, Ok(()));
            }
        }
        let mut new_block_info = self.block_info.duplicate();
        let (active_0, inactive_0, active_1, inactive_1) = self.active_inactive_gen_0_gen_1();
        let gen_1_collected = match Self::copy_reachable_gen_0(blocks_used, &mut new_block_info, active_0, inactive_0, active_1, inactive_1) {
            Ok(g) => g,
            Err(e) => {
                return Err(e);
            },
        };
        active_0.clear();
        self.active_gen_0 = (self.active_gen_0 + 1) % 2;
        if gen_1_collected {
            self.active_gen_1 = (self.active_gen_1 + 1) % 2;
        }
        self.block_info = new_block_info;
        proof {
            Self::lemma_gen0_collected_ok(pre, blocks_used@, *self);
        }
        Ok(())
    }

    /// What a successful generation 0 collection keeps, in direct terms.
    pub proof fn lemma_gen0_collected_ok(pre: Self, used: Seq<bool>, post: Self)
        requires
            pre.wf(),
            post.wf(),
            used.len() == MAX_BLOCKS,
            copies_below(pre.table(), usize::MAX - 1),
            pre.gen0_collected(used, &post, Ok::<(), HeapError>(())),
        ensures
            forall|live: Set<int>|
                (forall|k: int| 0 <= k < MAX_BLOCKS && #[trigger] live.contains(k) ==> used[k])
                    && #[trigger] pre.layout_on(live) ==> post.layout_on(live),
            forall|p: Pointer|
                p.block < MAX_BLOCKS && used[p.block as int] && #[trigger] pre.load_spec(p) is Ok
                    ==> post.load_spec(p) == pre.load_spec(p),
            forall|k: int|
                0 <= k < MAX_BLOCKS && used[k] && #[trigger] pre.table()[k] is Some
                    && pre.table()[k]->Some_0.num_times_copied < MAX_COPIES
                    && lies_in(pre.table()[k]->Some_0, pre.gen0(pre.active0())) ==> {
                    &&& post.table()[k] is Some
                    &&& post.table()[k]->Some_0.size == pre.table()[k]->Some_0.size
                    &&& post.table()[k]->Some_0.num_times_copied == pre.table()[k]->Some_0.num_times_copied + 1
                    &&& lies_in(post.table()[k]->Some_0, post.gen0(post.active0()))
                },
            post.active1() == pre.active1() ==> forall|k: int|
                0 <= k < MAX_BLOCKS && #[trigger] pre.table()[k] is Some
                    && pre.table()[k]->Some_0.num_times_copied > MAX_COPIES ==> post.table()[k] == pre.table()[k],
            forall|k: int| 0 <= k < MAX_BLOCKS && !used[k] ==> #[trigger] post.table()[k] == pre.table()[k],
    {
        assert(pre.gen0(1 - pre.active0()).words.len() == HEAP_SIZE);
        assert(pre.gen1(pre.active1()).words.len() == HEAP_SIZE);
        assert(pre.gen1(1 - pre.active1()).words.len() == HEAP_SIZE);
        lemma_gen0_fold_keeps_unmarked(
            used,
            pre.gen0(pre.active0()),
            pre.gen0_start(),
            HEAP_SIZE as nat,
            MAX_COPIES as nat,
            MAX_BLOCKS as int,
        );
        assert forall|live: Set<int>|
            (forall|k: int| 0 <= k < MAX_BLOCKS && #[trigger] live.contains(k) ==> used[k])
                && #[trigger] pre.layout_on(live) implies post.layout_on(live) by {
            Self::law_collect_gen_0_keeps_layout(pre, used, post, live);
        }
        assert forall|p: Pointer|
            p.block < MAX_BLOCKS && used[p.block as int] && #[trigger] pre.load_spec(p) is Ok
                implies post.load_spec(p) == pre.load_spec(p) by {
            Self::law_collect_gen_0_keeps_reachable(pre, used, post, p);
        }
        assert forall|k: int|
            0 <= k < MAX_BLOCKS && used[k] && #[trigger] pre.table()[k] is Some
                && pre.table()[k]->Some_0.num_times_copied < MAX_COPIES
                && lies_in(pre.table()[k]->Some_0, pre.gen0(pre.active0())) implies {
                &&& post.table()[k] is Some
                &&& post.table()[k]->Some_0.size == pre.table()[k]->Some_0.size
                &&& post.table()[k]->Some_0.num_times_copied == pre.table()[k]->Some_0.num_times_copied + 1
                &&& lies_in(post.table()[k]->Some_0, post.gen0(post.active0()))
            } by {
            Self::law_collect_gen_0_moves_young_block(pre, used, post, k as usize);
        }
        if post.active1() == pre.active1() {
            assert forall|k: int|
                0 <= k < MAX_BLOCKS && #[trigger] pre.table()[k] is Some
                    && pre.table()[k]->Some_0.num_times_copied > MAX_COPIES implies post.table()[k] == pre.table()[k] by {
                Self::law_collect_gen_0_keeps_old_block(pre, used, post, Pointer { block: k as usize, offset: 0, size: 0 });
            }
        }
    }

    /// Generation `g`'s half `h`.
    pub open spec fn half(&self, g: usize, h: int) -> Mem {
        if g == 0 {
            self.gen0(h)
        } else {
            self.gen1(h)
        }
    }

    /// The half (as its index and its generation) where block `block_num` lives.
    pub open spec fn heap_and_gen_spec(&self, block_num: usize) -> Result<(usize, usize), HeapError> {
        if block_num >= MAX_BLOCKS {
            Err(HeapError::IllegalBlock(block_num, (MAX_BLOCKS - 1) as usize))
        } else {
            match self.table()[block_num as int] {
                Some(info) => Ok(
                    if info.num_times_copied > MAX_COPIES {
                        (self.active1() as usize, 1usize)
                    } else {
                        (self.active0() as usize, 0usize)
                    },
                ),
                None => Err(HeapError::UnallocatedBlock(block_num)),
            }
        }
    }

    /// The half index, the generation and the allocated address of the word
    /// that `p` designates, or why there is none.
    pub open spec fn locate(&self, p: Pointer) -> Result<(usize, usize, usize), HeapError> {
        match self.heap_and_gen_spec(p.block) {
            Err(e) => Err(e),
            Ok(hg) => match address_of(self.table(), p) {
                Err(e) => Err(e),
                Ok(a) => if a < self.half(hg.1, hg.0 as int).next {
                    Ok((hg.0, hg.1, a))
                } else {
                    Err(HeapError::IllegalAddress(a, self.half(hg.1, hg.0 as int).next as usize))
                },
            },
        }
    }

    pub open spec fn load_spec(&self, p: Pointer) -> Result<u64, HeapError> {
        match self.locate(p) {
            Ok(l) => Ok(self.half(l.1, l.0 as int).words[l.2 as int]),
            Err(e) => Err(e),
        }
    }

    /// `after` holds what this heap holds.
    pub open spec fn same(&self, after: &Self) -> bool {
        &&& after.table() == self.table()
        &&& after.active0() == self.active0()
        &&& after.active1() == self.active1()
        &&& forall|h: int| 0 <= h < 2 ==> after.gen0(h) == self.gen0(h) && after.gen1(h) == self.gen1(h)
    }

    /// `after` is this heap with `value` written at `address` of generation `g`'s half `h`.
    pub open spec fn stored(&self, g: usize, h: int, address: int, value: u64, after: &Self) -> bool {
        &&& after.table() == self.table()
        &&& after.active0() == self.active0()
        &&& after.active1() == self.active1()
        &&& forall|g2: usize, h2: int| 0 <= g2 < 2 && 0 <= h2 < 2 ==> #[trigger] after.half(g2, h2) == if g2 == g && h2 == h {
            Mem { words: self.half(g, h).words.update(address, value), next: self.half(g, h).next }
        } else {
            self.half(g2, h2)
        }
    }

    /// `after` is this heap with block `b` allocated to `n` words at the first
    /// unallocated word of the active generation 0 half.
    pub open spec fn allocated(&self, b: usize, n: usize, after: &Self) -> bool {
        let a0 = self.active0();
        &&& after.table() == self.table().update(
            b as int,
            Some(BlockInfo { start: self.gen0(a0).next as usize, size: n, num_times_copied: 0 }),
        )
        &&& after.active0() == a0
        &&& after.active1() == self.active1()
        &&& after.gen0(a0) == (Mem { words: self.gen0(a0).words, next: (self.gen0(a0).next + n) as nat })
        &&& after.gen0(1 - a0) == self.gen0(1 - a0)
        &&& forall|h: int| 0 <= h < 2 ==> after.gen1(h) == self.gen1(h)
    }

    /// The effect of a request for `n` words in the active generation 0 half,
    /// for block number `b`.
    pub open spec fn allocate_outcome(&self, b: usize, n: usize, after: &Self, r: Result<Pointer, HeapError>) -> bool {
        if n > 0 && self.gen0(self.active0()).next + n <= HEAP_SIZE {
            self.allocated(b, n, after) && r == Ok::<Pointer, HeapError>(Pointer { block: b, offset: 0, size: n })
        } else {
            self.same(after) && r == Err::<Pointer, HeapError>(
                if n == 0 {
                    HeapError::ZeroSizeRequest
                } else {
                    HeapError::OutOfMemory
                },
            )
        }
    }

    /// The effect of a request for `n` words once the free block number `b`
    /// is known, given what the tracer reports if a collection is needed.
    pub open spec fn malloc_in_block(&self, b: usize, n: usize, used: Seq<bool>, after: &Self, r: Result<Pointer, HeapError>) -> bool {
        if n > 0 && self.gen0(self.active0()).next + n <= HEAP_SIZE {
            self.allocate_outcome(b, n, after, r)
        } else {
            exists|mid: Self, rc: Result<(), HeapError>|
                {
                    &&& #[trigger] self.gen0_collected(used, &mid, rc)
                    &&& mid.wf()
                    &&& copies_grown(self.table(), mid.table(), 2)
                    &&& match rc {
                        Err(e) => mid.same(after) && r == Err::<Pointer, HeapError>(e),
                        Ok(_) => mid.allocate_outcome(b, n, after, r),
                    }
                }
        }
    }

    /// The effect of a request for `n` words, given what the tracer reports
    /// at the first and at the second collection, if there are any.
    pub open spec fn malloc_steps(&self, n: usize, used1: Seq<bool>, used2: Seq<bool>, after: &Self, r: Result<Pointer, HeapError>) -> bool {
        match first_free(self.table()) {
            Some(b) => self.malloc_in_block(b, n, used1, after, r),
            None => exists|mid: Self, rc: Result<(), HeapError>|
                {
                    &&& #[trigger] self.gen0_collected(used1, &mid, rc)
                    &&& mid.wf()
                    &&& copies_grown(self.table(), mid.table(), 2)
                    &&& match rc {
                        Err(e) => mid.same(after) && r == Err::<Pointer, HeapError>(e),
                        Ok(_) => match first_free(mid.table()) {
                            None => mid.same(after) && r == Err::<Pointer, HeapError>(HeapError::OutOfBlocks),
                            Some(b) => mid.malloc_in_block(b, n, used2, after, r),
                        },
                    }
                },
        }
    }

    /// A heap with every block number free and every word zero.
    pub fn new() -> (h: Self)
        ensures
            h.wf(),
            h.table() == Seq::new(MAX_BLOCKS as nat, |i: int| None::<BlockInfo>),
            h.active0() == 0,
            h.active1() == 0,
            forall|live: Set<int>| #[trigger] h.layout_on(live),
            forall|g: usize, i: int| 0 <= g < 2 && 0 <= i < 2 ==> #[trigger] h.half(g, i) == (Mem {
                words: Seq::new(HEAP_SIZE as nat, |k: int| 0u64),
                next: 0,
            }),
    {
        GenerationalHeap {
            gen_0: [RamHeap::new(), RamHeap::new()],
            gen_1: [RamHeap::new(), RamHeap::new()],
            block_info: BlockTable::new(),
            active_gen_0: 0,
            active_gen_1: 0,
        }
    }

    /// The half index and the generation of the half where block `block_num` lives.
    fn heap_and_gen_for(&self, block_num: usize) -> (r: Result<(usize, usize), HeapError>)
        requires
            self.wf(),
            0 < MAX_BLOCKS,
        ensures
            r == self.heap_and_gen_spec(block_num),
    {
        if block_num >= MAX_BLOCKS {
            Err(HeapError::IllegalBlock(block_num, MAX_BLOCKS - 1))
        } else {
            match self.block_info.get(block_num) {
                Some(block_info) => Ok(
                    if block_info.num_times_copied > MAX_COPIES {
                        (self.active_gen_1, 1)
                    } else {
                        (self.active_gen_0, 0)
                    },
                ),
                None => Err(HeapError::UnallocatedBlock(block_num)),
            }
        }
    }

    /// The word that `p` designates.
    pub fn load(&self, p: Pointer) -> (r: Result<u64, HeapError>)
        requires
            self.wf(),
            0 < MAX_BLOCKS,
        ensures
            r == self.load_spec(p),
    {
        let (heap, gen) = self.heap_and_gen_for(p.block_num())?;
        let address = self.block_info.address(p)?;
        if gen == 0 {
            self.gen_0[heap].load(address)
        } else {
            self.gen_1[heap].load(address)
        }
    }

    /// Writes `value` into the word that `p` designates.
    pub fn store(&mut self, p: Pointer, value: u64) -> (r: Result<(), HeapError>)
        requires
            old(self).wf(),
            0 < MAX_BLOCKS,
        ensures
            final(self).wf(),
            forall|live: Set<int>| #[trigger] old(self).layout_on(live) ==> final(self).layout_on(live),
            match old(self).locate(p) {
                Ok(l) => r == Ok::<(), HeapError>(()) && old(self).stored(l.1, l.0 as int, l.2 as int, value, final(self)),
                Err(e) => r == Err::<(), HeapError>(e) && old(self).same(final(self)),
            },
    {
        let (heap, gen) = self.heap_and_gen_for(p.block_num())?;
        let address = self.block_info.address(p)?;
        if gen == 0 {
            self.gen_0[heap].store(address, value)
        } else {
            self.gen_1[heap].store(address, value)
        }
    }

    /// The address that `p` designates.
    pub fn address(&self, p: Pointer) -> (r: Result<usize, HeapError>)
        requires
            self.wf(),
            0 < MAX_BLOCKS,
        ensures
            r == address_of(self.table(), p),
    {
        self.block_info.address(p)
    }

    /// The allocated block numbers, in increasing order.
    pub fn blocks_in_use(&self) -> (r: Vec<usize>)
        ensures
            r@ == in_use(self.table()),
    {
        self.block_info.blocks_in_use()
    }

    /// The number of allocated blocks.
    pub fn num_allocated_blocks(&self) -> (n: usize)
        ensures
            n == in_use(self.table()).len(),
    {
        self.block_info.blocks_in_use().len()
    }

    /// The pointer to the first word of block `block`, when it is allocated.
    pub fn allocated_block_ptr(&self, block: usize) -> (r: Option<Pointer>)
        ensures
            r == block_ptr(self.table(), block),
    {
        self.block_info.allocated_block_ptr(block)
    }

    /// Each allocated block number with the number of times its block was copied.
    pub fn blocks_num_copies(&self) -> (r: Vec<(usize, usize)>)
        ensures
            r@ == copies_in_use(self.table()),
    {
        self.block_info.blocks_num_copies()
    }

    /// Whether both inactive halves are empty.
    pub fn assert_no_strays(&self) -> (ok: bool)
        requires
            self.wf(),
        ensures
            ok == (self.gen0(1 - self.active0()).next == 0 && self.gen1(1 - self.active1()).next == 0),
    {
        self.gen_0[(self.active_gen_0 + 1) % 2].next_address() == 0 && self.gen_1[(self.active_gen_1 + 1) % 2].next_address() == 0
    }

    /// Runs the tracer and performs a generation 0 collection of the blocks it reports.
    pub fn collect_gen_0<T: Tracer>(&mut self, tracer: &T) -> (r: Result<(), HeapError>)
        requires
            old(self).wf(),
            copies_below(old(self).table(), usize::MAX - 1),
        ensures
            final(self).wf(),
            exists|used: Seq<bool>| used.len() == MAX_BLOCKS && #[trigger] old(self).gen0_collected(used, final(self), r),
            exists|used: Seq<bool>|
                {
                    &&& used.len() == MAX_BLOCKS
                    &&& #[trigger] old(self).gen0_collected(used, final(self), r)
                    &&& r is Ok ==> forall|live: Set<int>|
                        (forall|k: int| 0 <= k < MAX_BLOCKS && #[trigger] live.contains(k) ==> used[k])
                            && #[trigger] old(self).layout_on(live) ==> final(self).layout_on(live)
                },
            forall|k: int| 0 <= k < MAX_BLOCKS ==> (#[trigger] final(self).table()[k] is Some) == old(self).table()[k] is Some,
            copies_grown(old(self).table(), final(self).table(), 2),
    {
        let mut blocks_used: Vec<bool> = Vec::new();
        let mut i: usize = 0;
        while i < MAX_BLOCKS
            invariant
                i <= MAX_BLOCKS,
                blocks_used@.len() == i,
                forall|j: int| 0 <= j < i ==> !blocks_used@[j],
            decreases MAX_BLOCKS - i,
        {
            blocks_used.push(false);
            i = i + 1;
        }
        tracer.trace(blocks_used.as_mut_slice());
        let r = self.collect_gen_0_with(blocks_used.as_slice());
        assert(old(self).gen0_collected(blocks_used@, self, r));
        r
    }

    /// Allocates `num_words` words of the active generation 0 half to the free block `b`.
    fn allocate_in(&mut self, b: usize, num_words: usize) -> (r: Result<Pointer, HeapError>)
        requires
            old(self).wf(),
            b < MAX_BLOCKS,
            old(self).table()[b as int] is None,
        ensures
            final(self).wf(),
            old(self).allocate_outcome(b, num_words, final(self), r),
            copies_grown(old(self).table(), final(self).table(), 0),
    {
        let active = self.active_gen_0;
        let addr = self.gen_0[active].malloc(num_words)?;
        self.block_info.set(b, Some(BlockInfo { start: addr, size: num_words, num_times_copied: 0 }));
        Ok(Pointer::new(b, num_words))
    }

    /// Allocates `num_words` words to the free block `b`, collecting
    /// generation 0 first when its active half has no room.
    fn malloc_in<T: Tracer>(&mut self, b: usize, num_words: usize, tracer: &T) -> (r: Result<Pointer, HeapError>)
        requires
            old(self).wf(),
            b < MAX_BLOCKS,
            old(self).table()[b as int] is None,
            copies_below(old(self).table(), usize::MAX - 1),
        ensures
            final(self).wf(),
            exists|used: Seq<bool>| used.len() == MAX_BLOCKS && #[trigger] old(self).malloc_in_block(b, num_words, used, final(self), r),
            copies_grown(old(self).table(), final(self).table(), 2),
    {
        let ghost h0 = *self;
        match self.allocate_in(b, num_words) {
            Ok(p) => {
                assert(h0.malloc_in_block(b, num_words, Seq::new(MAX_BLOCKS as nat, |i: int| false), self, Ok::<Pointer, HeapError>(p)));
                Ok(p)
            },
            Err(e) => {
                let ghost hm = *self;
                let rc = self.collect_gen_0(tracer);
                let ghost h1 = *self;
                let ghost used = choose|used: Seq<bool>| used.len() == MAX_BLOCKS && #[trigger] hm.gen0_collected(used, &h1, rc);
                assert(hm.gen0_collected(used, &h1, rc));
                assert(h0.gen0_collected(used, &h1, rc));
                match rc {
                    Ok(()) => {
                        let r = self.allocate_in(b, num_words);
                        assert(h0.malloc_in_block(b, num_words, used, self, r));
                        r
                    },
                    Err(e2) => {
                        let r = Err(e2);
                        assert(h0.malloc_in_block(b, num_words, used, self, r));
                        r
                    },
                }
            },
        }
    }

    /// Allocates a block of `num_words` words in the lowest free block number,
    /// collecting generation 0 with what `tracer` reports when no block
    /// number or no word is free.
    pub fn malloc<T: Tracer>(&mut self, num_words: usize, tracer: &T) -> (r: Result<Pointer, HeapError>)
        requires
            old(self).wf(),
            copies_below(old(self).table(), usize::MAX - 3),
        ensures
            final(self).wf(),
            exists|used1: Seq<bool>, used2: Seq<bool>|
                used1.len() == MAX_BLOCKS && used2.len() == MAX_BLOCKS
                    && #[trigger] old(self).malloc_steps(num_words, used1, used2, final(self), r),
            copies_grown(old(self).table(), final(self).table(), 4),
    {
        let ghost h0 = *self;
        proof {
            lemma_first_free(self.table());
        }
        match self.block_info.available_block() {
            Some(b) => {
                let r = self.malloc_in(b, num_words, tracer);
                let ghost used = choose|used: Seq<bool>| used.len() == MAX_BLOCKS && #[trigger] h0.malloc_in_block(b, num_words, used, self, r);
                assert(h0.malloc_steps(num_words, used, used, self, r));
                r
            },
            None => {
                let rc = self.collect_gen_0(tracer);
                let ghost h1 = *self;
                let ghost used1 = choose|used: Seq<bool>| used.len() == MAX_BLOCKS && #[trigger] h0.gen0_collected(used, &h1, rc);
                assert(h0.gen0_collected(used1, &h1, rc));
                match rc {
                    Err(e) => {
                        let r = Err(e);
                        assert(h0.malloc_steps(num_words, used1, used1, self, r));
                        r
                    },
                    Ok(()) => {
                        proof {
                            lemma_first_free(self.table());
                        }
                        match self.block_info.available_block() {
                            Some(b) => {
                                let r = self.malloc_in(b, num_words, tracer);
                                let ghost used2 = choose|used: Seq<bool>| used.len() == MAX_BLOCKS && #[trigger] h1.malloc_in_block(b, num_words, used, self, r);
                                assert(h0.malloc_steps(num_words, used1, used2, self, r));
                                r
                            },
                            None => {
                                let r = Err(HeapError::OutOfBlocks);
                                assert(h0.malloc_steps(num_words, used1, used1, self, r));
                                r
                            },
                        }
                    },
                }
            },
        }
    }

    /// Copies every block of `block_info` marked in `blocks_used` that has been
    /// copied more than `MAX_COPIES` times out of `src` into `dest`, then clears `src`.
    pub fn collect_gen_1(
        blocks_used: &[bool],
        block_info: &mut BlockTable<MAX_BLOCKS>,
        src: &mut RamHeap<HEAP_SIZE>,
        dest: &mut RamHeap<HEAP_SIZE>,
    ) -> (r: Result<(), HeapError>)
        requires
            blocks_used@.len() == MAX_BLOCKS,
            old(block_info).wf(),
            blocks_within(old(block_info)@, HEAP_SIZE as int),
            old(src).wf(),
            old(dest).wf(),
            forall|k: int| #[trigger] gen1_candidate(blocks_used@, old(block_info)@, k, MAX_COPIES as nat)
                ==> old(block_info)@[k]->Some_0.num_times_copied < usize::MAX,
        ensures
            final(block_info).wf(),
            blocks_within(final(block_info)@, HEAP_SIZE as int),
            final(src).wf(),
            final(dest).wf(),
            final(src).words() == old(src).words(),
            match gen1_fold(blocks_used@, old(block_info)@, mem_of(*old(src)), mem_of(*old(dest)), HEAP_SIZE as nat, MAX_COPIES as nat, MAX_BLOCKS as int) {
                Ok(g) => r == Ok::<(), HeapError>(()) && final(block_info)@ == g.0 && mem_of(*final(dest)) == g.1
                    && final(src).next() == 0,
                Err(x) => r == Err::<(), HeapError>(x.0) && final(block_info)@ == x.1 && mem_of(*final(dest)) == x.2
                    && final(src).next() == old(src).next(),
            },
            forall|k: int| 0 <= k < MAX_BLOCKS ==> {
                ||| #[trigger] final(block_info)@[k] == old(block_info)@[k]
                ||| gen1_candidate(blocks_used@, old(block_info)@, k, MAX_COPIES as nat)
                    && final(block_info)@[k] is Some
                    && final(block_info)@[k]->Some_0.num_times_copied == old(block_info)@[k]->Some_0.num_times_copied + 1
            },
            gen1_fits(blocks_used@, old(block_info)@, mem_of(*old(src)), mem_of(*old(dest)), HEAP_SIZE as nat, MAX_COPIES as nat)
                ==> r is Ok && gen1_packed(
                    blocks_used@,
                    old(block_info)@,
                    mem_of(*old(src)),
                    mem_of(*old(dest)),
                    MAX_COPIES as nat,
                    MAX_BLOCKS as int,
                    final(block_info)@,
                    mem_of(*final(dest)),
                ),
    {
        let ghost used = blocks_used@;
        proof {
            if gen1_fits(blocks_used@, block_info@, mem_of(*src), mem_of(*dest), HEAP_SIZE as nat, MAX_COPIES as nat) {
                law_gen1_collection_packs_blocks(
                    blocks_used@,
                    block_info@,
                    mem_of(*src),
                    mem_of(*dest),
                    HEAP_SIZE as nat,
                    MAX_COPIES as nat,
                    MAX_BLOCKS as int,
                );
            }
        }
        let ghost t0 = block_info@;
        let ghost m_src = mem_of(*src);
        let ghost m_dest = mem_of(*dest);
        let mut i: usize = 0;
        while i < MAX_BLOCKS
            invariant
                i <= MAX_BLOCKS,
                blocks_used@ == used,
                used.len() == MAX_BLOCKS,
                t0.len() == MAX_BLOCKS,
                t0 == old(block_info)@,
                m_dest == mem_of(*old(dest)),
                m_src == mem_of(*old(src)),
                block_info.wf(),
                blocks_within(block_info@, HEAP_SIZE as int),
                src.wf(),
                dest.wf(),
                mem_of(*src) == m_src,
                forall|k: int| #[trigger] gen1_candidate(used, t0, k, MAX_COPIES as nat) ==> t0[k]->Some_0.num_times_copied < usize::MAX,
                gen1_fits(used, t0, m_src, m_dest, HEAP_SIZE as nat, MAX_COPIES as nat) ==> {
                    let g = gen1_fold(used, t0, m_src, m_dest, HEAP_SIZE as nat, MAX_COPIES as nat, MAX_BLOCKS as int);
                    g is Ok && gen1_packed(used, t0, m_src, m_dest, MAX_COPIES as nat, MAX_BLOCKS as int, g->Ok_0.0, g->Ok_0.1)
                },
                gen1_fold(used, t0, m_src, m_dest, HEAP_SIZE as nat, MAX_COPIES as nat, i as int)
                    == Ok::<(Seq<Option<BlockInfo>>, Mem), (HeapError, Seq<Option<BlockInfo>>, Mem)>((block_info@, mem_of(*dest))),
                forall|k: int| i <= k < MAX_BLOCKS ==> #[trigger] block_info@[k] == t0[k],
                forall|k: int| 0 <= k < MAX_BLOCKS ==> {
                    ||| #[trigger] block_info@[k] == t0[k]
                    ||| gen1_candidate(used, t0, k, MAX_COPIES as nat)
                        && block_info@[k] is Some
                        && block_info@[k]->Some_0.num_times_copied == t0[k]->Some_0.num_times_copied + 1
                },
            decreases MAX_BLOCKS - i,
        {
            let ghost t_before = block_info@;
            if blocks_used[i] {
                if let Some(block) = block_info.get(i) {
                    if block.num_times_copied > MAX_COPIES {
                        assert(gen1_candidate(used, t0, i as int, MAX_COPIES as nat));
                        match src.copy(&block, dest) {
                            Ok(copied) => {
                                block_info.set(i, Some(copied));
                            },
                            Err(e) => {
                                proof {
                                    assert(t_before[i as int] == Some(block));
                                    assert(gen1_fold(used, t0, m_src, m_dest, HEAP_SIZE as nat, MAX_COPIES as nat, i as int + 1)
                                        == Err::<(Seq<Option<BlockInfo>>, Mem), (HeapError, Seq<Option<BlockInfo>>, Mem)>((e, block_info@, mem_of(*dest))));
                                    assert forall|k: int| 0 <= k < MAX_BLOCKS implies {
                                        ||| #[trigger] block_info@[k] == t0[k]
                                        ||| gen1_candidate(used, t0, k, MAX_COPIES as nat)
                                            && block_info@[k] is Some
                                            && block_info@[k]->Some_0.num_times_copied == t0[k]->Some_0.num_times_copied + 1
                                    } by {
                                        assert(t_before[k] == block_info@[k]);
                                    }
                                    lemma_gen1_fold_err(used, t0, m_src, m_dest, HEAP_SIZE as nat, MAX_COPIES as nat, i as int + 1, MAX_BLOCKS as int);
                                    assert(gen1_fold(used, t0, m_src, m_dest, HEAP_SIZE as nat, MAX_COPIES as nat, MAX_BLOCKS as int)
                                        == Err::<(Seq<Option<BlockInfo>>, Mem), (HeapError, Seq<Option<BlockInfo>>, Mem)>((e, block_info@, mem_of(*dest))));
                                }
                                return Err(e);
                            },
                        }
                    }
                }
            }
            i = i + 1;
            assert(gen1_fold(used, t0, m_src, m_dest, HEAP_SIZE as nat, MAX_COPIES as nat, i as int)
                == Ok::<(Seq<Option<BlockInfo>>, Mem), (HeapError, Seq<Option<BlockInfo>>, Mem)>((block_info@, mem_of(*dest))));
        }
        src.clear();
        Ok(())
    }
}

/// Across one step of a generation 0 collection that succeeds, the inactive
/// generation 1 half is untouched until generation 1 is collected, and the
/// active one stays empty after that.
pub open spec fn gen1_halves_kept(s0: Gen0State, s: Gen0State) -> bool {
    &&& !s.gen_1_collected ==> s.inactive_1 == s0.inactive_1
    &&& s.gen_1_collected ==> s.active_1.next == 0
}

pub proof fn lemma_gen0_fold_gen1_halves(used: Seq<bool>, active_0: Mem, s0: Gen0State, limit: nat, max_copies: nat, n: int)
    requires
        !s0.gen_1_collected,
    ensures
        gen0_fold(used, active_0, s0, limit, max_copies, n) matches Ok(s) ==> gen1_halves_kept(s0, s),
    decreases n,
{
    if n > 0 {
        lemma_gen0_fold_gen1_halves(used, active_0, s0, limit, max_copies, n - 1);
    }
}

/// A copy that succeeds puts the block's words at the old end of `dest` and
/// leaves every word below it as it was.
pub proof fn lemma_copy_into_ok(src: Mem, info: BlockInfo, dest: Mem, limit: nat)
    requires
        copy_into(src, info, dest, limit).0 is Ok,
        dest.words.len() == limit,
        limit <= usize::MAX,
    ensures
        ({
            let out = copy_into(src, info, dest, limit);
            &&& out.0->Ok_0.start == dest.next
            &&& out.0->Ok_0.size == info.size
            &&& out.0->Ok_0.num_times_copied == (info.num_times_copied + 1) as usize
            &&& out.1.next == dest.next + info.size
            &&& out.1.next <= limit
            &&& out.1.words.len() == limit
            &&& forall|a: int| 0 <= a < dest.next ==> #[trigger] out.1.words[a] == dest.words[a]
            &&& forall|j: int| 0 <= j < info.size ==> #[trigger] out.1.words[dest.next + j] == src.words[info.start + j]
            &&& info.start + info.size <= src.next
        }),
{
    let out = copy_into(src, info, dest, limit);
    let k = readable(info.start as int, info.size as int, src.next as int);
    assert forall|j: int| 0 <= j < info.size implies #[trigger] out.1.words[dest.next + j] == src.words[info.start + j] by {
        assert(out.1.words == overwrite(dest.words, dest.next as int, words_at(src.words, info.start as int, k)));
    }
}

/// All the halves a generation 0 collection writes hold `limit` words.
pub open spec fn gen0_state_sized(s: Gen0State, limit: nat) -> bool {
    &&& s.inactive_0.words.len() == limit
    &&& s.active_1.words.len() == limit
    &&& s.inactive_1.words.len() == limit
}

/// Block `e` ends at or below the first unallocated word of `m`.
pub open spec fn lies_in(e: BlockInfo, m: Mem) -> bool {
    e.start + e.size <= m.next
}

/// Blocks `a` and `b` share no word.
pub open spec fn apart(a: BlockInfo, b: BlockInfo) -> bool {
    a.start + a.size <= b.start || b.start + b.size <= a.start
}

/// Where a block lives in state `s` of a generation 0 collection that has
/// handled the block numbers below `i`: 2 for generation 1, 1 for the
/// inactive generation 0 half it was copied to, 0 for the half it is copied from.
pub open spec fn group(e: BlockInfo, k: int, i: int, max_copies: nat) -> int {
    if e.num_times_copied > max_copies {
        2
    } else if k < i {
        1
    } else {
        0
    }
}

/// The half that holds the blocks of group `g` in state `s`.
pub open spec fn region(s: Gen0State, active_0: Mem, g: int) -> Mem {
    if g == 2 {
        if s.gen_1_collected {
            s.inactive_1
        } else {
            s.active_1
        }
    } else if g == 1 {
        s.inactive_0
    } else {
        active_0
    }
}

/// In state `s` of a generation 0 collection that started from table `t0`
/// and has handled the block numbers below `i`, every block of `live` lies in
/// the half of its group, the blocks of `live` in one group share no word, no
/// block was allocated, and no block of the half being copied from has changed.
pub open spec fn placed(s: Gen0State, active_0: Mem, t0: Seq<Option<BlockInfo>>, live: Set<int>, i: int, max_copies: nat) -> bool {
    &&& s.table.len() == t0.len()
    &&& forall|k: int| 0 <= k < s.table.len() && #[trigger] s.table[k] is Some ==> {
        &&& t0[k] is Some
        &&& 1 <= s.table[k]->Some_0.size
        &&& !s.gen_1_collected ==> s.table[k]->Some_0.num_times_copied <= t0[k]->Some_0.num_times_copied + 1
        &&& (k >= i && s.table[k]->Some_0.num_times_copied <= max_copies) ==> s.table[k] == t0[k]
    }
    &&& forall|k: int| 0 <= k < s.table.len() && #[trigger] live.contains(k) && s.table[k] is Some
        ==> lies_in(s.table[k]->Some_0, region(s, active_0, group(s.table[k]->Some_0, k, i, max_copies)))
    &&& forall|j: int, k: int|
        0 <= j < s.table.len() && 0 <= k < s.table.len() && j != k && #[trigger] live.contains(j)
            && #[trigger] live.contains(k) && s.table[j] is Some && s.table[k] is Some
            && group(s.table[j]->Some_0, j, i, max_copies) == group(s.table[k]->Some_0, k, i, max_copies)
            ==> apart(s.table[j]->Some_0, s.table[k]->Some_0)
}

/// A generation 1 collection that succeeds puts every block that it copies
/// into `dest`, apart from each other, and leaves every other entry alone.
pub proof fn lemma_gen1_fold_placed(
    used: Seq<bool>,
    t: Seq<Option<BlockInfo>>,
    src: Mem,
    dest0: Mem,
    limit: nat,
    max_copies: nat,
    n: int,
)
    requires
        0 <= n <= t.len(),
        used.len() == t.len(),
        dest0.words.len() == limit,
        limit <= usize::MAX,
        gen1_fold(used, t, src, dest0, limit, max_copies, n) is Ok,
        forall|k: int| 0 <= k < t.len() && #[trigger] t[k] is Some ==> t[k]->Some_0.num_times_copied < usize::MAX,
    ensures
        ({
            let g = gen1_fold(used, t, src, dest0, limit, max_copies, n)->Ok_0;
            &&& g.0.len() == t.len()
            &&& g.1.words.len() == limit
            &&& g.1.next >= dest0.next
            &&& forall|k: int| 0 <= k < t.len() && #[trigger] g.0[k] is Some ==> {
                &&& t[k] is Some
                &&& g.0[k]->Some_0.size == t[k]->Some_0.size
                &&& (g.0[k]->Some_0.num_times_copied > max_copies) == (t[k]->Some_0.num_times_copied > max_copies)
                &&& g.0[k]->Some_0.num_times_copied <= t[k]->Some_0.num_times_copied + 1
                &&& t[k]->Some_0.num_times_copied <= max_copies ==> g.0[k] == t[k]
            }
            &&& forall|k: int| 0 <= k < n && #[trigger] gen1_candidate(used, t, k, max_copies)
                ==> g.0[k] is Some && lies_in(g.0[k]->Some_0, g.1)
            &&& forall|k: int| 0 <= k < t.len() && #[trigger] t[k] is Some && t[k]->Some_0.num_times_copied <= max_copies
                ==> g.0[k] == t[k]
            &&& forall|k: int| 0 <= k < t.len() && !gen1_candidate(used, t, k, max_copies) ==> #[trigger] g.0[k] == t[k]
            &&& forall|k: int| n <= k < t.len() ==> #[trigger] g.0[k] == t[k]
            &&& forall|j: int, k: int|
                0 <= j < n && 0 <= k < n && j != k && #[trigger] gen1_candidate(used, t, j, max_copies)
                    && #[trigger] gen1_candidate(used, t, k, max_copies)
                    ==> apart(g.0[j]->Some_0, g.0[k]->Some_0)
        }),
    decreases n,
{
    if n > 0 {
        lemma_gen1_fold_placed(used, t, src, dest0, limit, max_copies, n - 1);
        let prev = gen1_fold(used, t, src, dest0, limit, max_copies, n - 1)->Ok_0;
        let g = gen1_fold(used, t, src, dest0, limit, max_copies, n)->Ok_0;
        let j = n - 1;
        if gen1_candidate(used, prev.0, j, max_copies) {
            lemma_copy_into_ok(src, prev.0[j]->Some_0, prev.1, limit);
            assert(prev.0[j] == t[j]);
            assert forall|k: int| 0 <= k < t.len() && #[trigger] g.0[k] is Some implies {
                &&& t[k] is Some
                &&& g.0[k]->Some_0.size == t[k]->Some_0.size
                &&& (g.0[k]->Some_0.num_times_copied > max_copies) == (t[k]->Some_0.num_times_copied > max_copies)
                &&& g.0[k]->Some_0.num_times_copied <= t[k]->Some_0.num_times_copied + 1
                &&& t[k]->Some_0.num_times_copied <= max_copies ==> g.0[k] == t[k]
            } by {
                if k != j {
                    assert(g.0[k] == prev.0[k]);
                }
            }
            assert forall|k: int| 0 <= k < n && #[trigger] gen1_candidate(used, t, k, max_copies)
                implies g.0[k] is Some && lies_in(g.0[k]->Some_0, g.1) by {
                if k != j {
                    assert(g.0[k] == prev.0[k]);
                }
            }
            assert forall|a: int, b: int|
                0 <= a < n && 0 <= b < n && a != b && #[trigger] gen1_candidate(used, t, a, max_copies)
                    && #[trigger] gen1_candidate(used, t, b, max_copies)
                    implies apart(g.0[a]->Some_0, g.0[b]->Some_0) by {
                if a != j && b != j {
                    assert(g.0[a] == prev.0[a] && g.0[b] == prev.0[b]);
                } else if a == j {
                    assert(g.0[b] == prev.0[b]);
                    assert(prev.0[b] is Some);
                } else {
                    assert(g.0[a] == prev.0[a]);
                    assert(prev.0[a] is Some);
                }
            }
            assert forall|k: int| 0 <= k < t.len() && !gen1_candidate(used, t, k, max_copies) implies #[trigger] g.0[k] == t[k] by {
                if k != j {
                    assert(g.0[k] == prev.0[k]);
                }
            }
        } else {
            assert forall|k: int| 0 <= k < t.len() && #[trigger] g.0[k] is Some implies g.0[k] == prev.0[k] by {}
            assert(prev.0[j] == t[j]);
            assert(!gen1_candidate(used, t, j, max_copies));
        }
    }
}

/// One successful step of a generation 0 collection keeps its state placed
/// for a set of blocks that are all marked in use.
pub proof fn lemma_gen0_step_placed(
    used: Seq<bool>,
    active_0: Mem,
    s: Gen0State,
    t0: Seq<Option<BlockInfo>>,
    live: Set<int>,
    i: int,
    limit: nat,
    max_copies: nat,
)
    requires
        0 <= i < s.table.len(),
        used.len() == s.table.len(),
        limit <= usize::MAX,
        gen0_state_sized(s, limit),
        copies_below(t0, usize::MAX - 1),
        forall|k: int| 0 <= k < used.len() && #[trigger] live.contains(k) ==> used[k],
        placed(s, active_0, t0, live, i, max_copies),
        gen0_step(used, active_0, s, i, limit, max_copies) is Ok,
    ensures
        gen0_state_sized(gen0_step(used, active_0, s, i, limit, max_copies)->Ok_0, limit),
        placed(gen0_step(used, active_0, s, i, limit, max_copies)->Ok_0, active_0, t0, live, i + 1, max_copies),
{
    let s2 = gen0_step(used, active_0, s, i, limit, max_copies)->Ok_0;
    if !(0 <= i < s.table.len() && i < used.len() && used[i] && s.table[i] is Some) {
        assert(placed(s2, active_0, t0, live, i + 1, max_copies));
    } else {
        let block = s.table[i]->Some_0;
        assert(block == t0[i]->Some_0 || block.num_times_copied > max_copies);
        if block.num_times_copied == max_copies {
            if s.gen_1_collected {
                lemma_copy_into_ok(active_0, block, s.inactive_1, limit);
                assert(placed(s2, active_0, t0, live, i + 1, max_copies));
            } else {
                let out = copy_into(active_0, block, s.active_1, limit);
                match out.0 {
                    Ok(info) => {
                        lemma_copy_into_ok(active_0, block, s.active_1, limit);
                        assert(placed(s2, active_0, t0, live, i + 1, max_copies));
                    },
                    Err(HeapError::OutOfMemory) => {
                        lemma_gen1_fold_placed(used, s.table, s.active_1, s.inactive_1, limit, max_copies, s.table.len() as int);
                        let g = gen1_fold(used, s.table, s.active_1, s.inactive_1, limit, max_copies, s.table.len() as int)->Ok_0;
                        assert(g.0[i] == s.table[i]);
                        lemma_copy_into_ok(active_0, block, g.1, limit);
                        let moved = copy_into(active_0, block, g.1, limit);
                        assert(s2.table == g.0.update(i, Some(moved.0->Ok_0)));
                        assert forall|k: int| 0 <= k < s.table.len() && k != i && #[trigger] g.0[k] is Some implies {
                            &&& s.table[k] is Some
                            &&& g.0[k]->Some_0.num_times_copied <= max_copies ==> g.0[k] == s.table[k]
                            &&& (live.contains(k) && g.0[k]->Some_0.num_times_copied > max_copies) ==> gen1_candidate(
                                used,
                                s.table,
                                k,
                                max_copies,
                            )
                        } by {
                            if live.contains(k) {
                                assert(used[k]);
                            }
                        }
                        assert forall|k: int| 0 <= k < s2.table.len() && #[trigger] live.contains(k) && s2.table[k] is Some
                            implies lies_in(s2.table[k]->Some_0, region(s2, active_0, group(s2.table[k]->Some_0, k, i + 1, max_copies))) by {
                            if k != i {
                                assert(s2.table[k] == g.0[k]);
                                if g.0[k]->Some_0.num_times_copied <= max_copies {
                                    assert(s.table[k] is Some);
                                }
                            }
                        }
                        assert forall|a: int, b: int|
                            0 <= a < s2.table.len() && 0 <= b < s2.table.len() && a != b && #[trigger] live.contains(a)
                                && #[trigger] live.contains(b) && s2.table[a] is Some && s2.table[b] is Some
                                && group(s2.table[a]->Some_0, a, i + 1, max_copies) == group(s2.table[b]->Some_0, b, i + 1, max_copies)
                                implies apart(s2.table[a]->Some_0, s2.table[b]->Some_0) by {
                            if a != i && b != i {
                                assert(s2.table[a] == g.0[a] && s2.table[b] == g.0[b]);
                                if g.0[a]->Some_0.num_times_copied > max_copies {
                                    assert(gen1_candidate(used, s.table, a, max_copies));
                                    assert(gen1_candidate(used, s.table, b, max_copies));
                                } else {
                                    assert(s.table[a] is Some && s.table[b] is Some);
                                }
                            } else if a == i {
                                assert(s2.table[b] == g.0[b]);
                                assert(gen1_candidate(used, s.table, b, max_copies));
                            } else {
                                assert(s2.table[a] == g.0[a]);
                                assert(gen1_candidate(used, s.table, a, max_copies));
                            }
                        }
                        assert(placed(s2, active_0, t0, live, i + 1, max_copies));
                    },
                    Err(_) => {},
                }
            }
        } else if block.num_times_copied < max_copies {
            lemma_copy_into_ok(active_0, block, s.inactive_0, limit);
            assert(placed(s2, active_0, t0, live, i + 1, max_copies));
        } else {
            assert(placed(s2, active_0, t0, live, i + 1, max_copies));
        }
    }
}

/// A generation 0 collection that succeeds without collecting generation 1
/// leaves every generation 1 block where it was, and every allocated word
/// of the active generation 1 half as it was.
pub proof fn lemma_gen0_fold_keeps_gen1(
    used: Seq<bool>,
    active_0: Mem,
    s0: Gen0State,
    limit: nat,
    max_copies: nat,
    n: int,
)
    requires
        !s0.gen_1_collected,
        0 <= n <= s0.table.len(),
        used.len() == s0.table.len(),
        limit <= usize::MAX,
        gen0_state_sized(s0, limit),
        gen0_fold(used, active_0, s0, limit, max_copies, n) is Ok,
    ensures
        ({
            let s = gen0_fold(used, active_0, s0, limit, max_copies, n)->Ok_0;
            &&& gen0_state_sized(s, limit)
            &&& s.table.len() == s0.table.len()
            &&& !s.gen_1_collected ==> {
                &&& forall|k: int| 0 <= k < s0.table.len() && #[trigger] s0.table[k] is Some
                    && s0.table[k]->Some_0.num_times_copied > max_copies ==> s.table[k] == s0.table[k]
                &&& s.active_1.next >= s0.active_1.next
                &&& forall|a: int| 0 <= a < s0.active_1.next ==> #[trigger] s.active_1.words[a] == s0.active_1.words[a]
            }
        }),
    decreases n,
{
    if n > 0 {
        lemma_gen0_fold_keeps_gen1(used, active_0, s0, limit, max_copies, n - 1);
        let prev = gen0_fold(used, active_0, s0, limit, max_copies, n - 1)->Ok_0;
        let i = n - 1;
        if (0 <= i < prev.table.len() && i < used.len() && used[i] && prev.table[i] is Some) {
            let block = prev.table[i]->Some_0;
            if block.num_times_copied == max_copies {
                if prev.gen_1_collected {
                    lemma_copy_into_ok(active_0, block, prev.inactive_1, limit);
                } else {
                    let out = copy_into(active_0, block, prev.active_1, limit);
                    match out.0 {
                        Ok(_) => {
                            lemma_copy_into_ok(active_0, block, prev.active_1, limit);
                        },
                        Err(HeapError::OutOfMemory) => {
                            lemma_gen1_fold_keeps_word(used, prev.table, prev.active_1, prev.inactive_1, limit, max_copies, prev.table.len() as int, -1, 0, 0);
                            let g = gen1_fold(used, prev.table, prev.active_1, prev.inactive_1, limit, max_copies, prev.table.len() as int)->Ok_0;
                            lemma_copy_into_ok(active_0, block, g.1, limit);
                        },
                        Err(_) => {},
                    }
                }
            } else if block.num_times_copied < max_copies {
                lemma_copy_into_ok(active_0, block, prev.inactive_0, limit);
            }
        }
    }
}

/// A successful generation 0 collection leaves the entry of every block that
/// is not marked in use as it was.
pub proof fn lemma_gen0_fold_keeps_unmarked(
    used: Seq<bool>,
    active_0: Mem,
    s0: Gen0State,
    limit: nat,
    max_copies: nat,
    n: int,
)
    requires
        0 <= n <= s0.table.len(),
        used.len() == s0.table.len(),
        limit <= usize::MAX,
        gen0_state_sized(s0, limit),
        gen0_fold(used, active_0, s0, limit, max_copies, n) is Ok,
    ensures
        ({
            let s = gen0_fold(used, active_0, s0, limit, max_copies, n)->Ok_0;
            &&& gen0_state_sized(s, limit)
            &&& s.table.len() == s0.table.len()
            &&& forall|k: int| 0 <= k < s0.table.len() && !used[k] ==> #[trigger] s.table[k] == s0.table[k]
        }),
    decreases n,
{
    if n > 0 {
        lemma_gen0_fold_keeps_unmarked(used, active_0, s0, limit, max_copies, n - 1);
        let prev = gen0_fold(used, active_0, s0, limit, max_copies, n - 1)->Ok_0;
        let i = n - 1;
        if (0 <= i < prev.table.len() && i < used.len() && used[i] && prev.table[i] is Some) {
            let block = prev.table[i]->Some_0;
            if block.num_times_copied == max_copies {
                if prev.gen_1_collected {
                    lemma_copy_into_ok(active_0, block, prev.inactive_1, limit);
                } else {
                    let out = copy_into(active_0, block, prev.active_1, limit);
                    match out.0 {
                        Ok(_) => {
                            lemma_copy_into_ok(active_0, block, prev.active_1, limit);
                        },
                        Err(HeapError::OutOfMemory) => {
                            lemma_gen1_fold_keeps_word(used, prev.table, prev.active_1, prev.inactive_1, limit, max_copies, prev.table.len() as int, -1, 0, 0);
                            let g = gen1_fold(used, prev.table, prev.active_1, prev.inactive_1, limit, max_copies, prev.table.len() as int)->Ok_0;
                            lemma_copy_into_ok(active_0, block, g.1, limit);
                            assert forall|k: int| 0 <= k < s0.table.len() && !used[k] implies #[trigger] g.0[k] == prev.table[k] by {
                                assert(!gen1_candidate(used, prev.table, k, max_copies));
                            }
                        },
                        Err(_) => {},
                    }
                }
            } else if block.num_times_copied < max_copies {
                lemma_copy_into_ok(active_0, block, prev.inactive_0, limit);
            }
        }
    }
}

/// The number of words of the blocks below `n` that a generation 1
/// collection copies.
pub open spec fn gen1_words_below(used: Seq<bool>, t: Seq<Option<BlockInfo>>, max_copies: nat, n: int) -> int
    decreases n,
{
    if n <= 0 {
        0
    } else {
        gen1_words_below(used, t, max_copies, n - 1) + if gen1_candidate(used, t, n - 1, max_copies) {
            t[n - 1]->Some_0.size as int
        } else {
            0
        }
    }
}

pub proof fn lemma_gen1_words_mono(used: Seq<bool>, t: Seq<Option<BlockInfo>>, max_copies: nat, n: int, m: int)
    requires
        0 <= n <= m,
    ensures
        0 <= gen1_words_below(used, t, max_copies, n) <= gen1_words_below(used, t, max_copies, m),
    decreases m,
{
    if m > n {
        lemma_gen1_words_mono(used, t, max_copies, n, m - 1);
    } else if n > 0 {
        lemma_gen1_words_mono(used, t, max_copies, 0, n - 1);
        lemma_gen1_words_mono(used, t, max_copies, n - 1, n - 1);
    }
}

/// The blocks that a generation 1 collection copies lie in the allocated
/// part of `src`, hold at least one word each, can be counted once more, and
/// fit together after the first free word of `dest0`.
pub open spec fn gen1_fits(used: Seq<bool>, t: Seq<Option<BlockInfo>>, src: Mem, dest0: Mem, limit: nat, max_copies: nat) -> bool {
    &&& dest0.next + gen1_words_below(used, t, max_copies, t.len() as int) <= limit
    &&& forall|k: int| #[trigger] gen1_candidate(used, t, k, max_copies) ==> {
        &&& lies_in(t[k]->Some_0, src)
        &&& 1 <= t[k]->Some_0.size
        &&& t[k]->Some_0.num_times_copied < usize::MAX
    }
}

/// `t2` and `dest` are table `t` and half `dest0` once the blocks to copy
/// below `n` have been laid out one after the other in increasing block
/// number from the first free word of `dest0`, each with its words, its size
/// and one more copy, and nothing else has changed: every other entry and
/// every word below the first free word of `dest0` are as they were.
pub open spec fn gen1_packed(
    used: Seq<bool>,
    t: Seq<Option<BlockInfo>>,
    src: Mem,
    dest0: Mem,
    max_copies: nat,
    n: int,
    t2: Seq<Option<BlockInfo>>,
    dest: Mem,
) -> bool {
    &&& t2.len() == t.len()
    &&& dest.words.len() == dest0.words.len()
    &&& dest.next == dest0.next + gen1_words_below(used, t, max_copies, n)
    &&& forall|a: int| 0 <= a < dest0.next ==> #[trigger] dest.words[a] == dest0.words[a]
    &&& forall|k: int| 0 <= k < n && #[trigger] gen1_candidate(used, t, k, max_copies) ==> {
        &&& t2[k] == Some(BlockInfo {
            start: (dest0.next + gen1_words_below(used, t, max_copies, k)) as usize,
            size: t[k]->Some_0.size,
            num_times_copied: (t[k]->Some_0.num_times_copied + 1) as usize,
        })
        &&& words_at(dest.words, dest0.next + gen1_words_below(used, t, max_copies, k), t[k]->Some_0.size as int)
            == words_at(src.words, t[k]->Some_0.start as int, t[k]->Some_0.size as int)
    }
    &&& forall|k: int| 0 <= k < t.len() && !gen1_candidate(used, t, k, max_copies) ==> #[trigger] t2[k] == t[k]
    &&& forall|k: int| n <= k < t.len() ==> #[trigger] t2[k] == t[k]
}

/// A generation 1 collection whose blocks to copy lie in `src` and fit in
/// `dest` succeeds and packs them: it lays them out one after the other in
/// increasing block number from the first free word of `dest`, each with its
/// words, its size and one more copy, and leaves every other entry and every
/// word below the first free word of `dest` alone.
#[verifier::rlimit(40)]
pub proof fn law_gen1_collection_packs_blocks(
    used: Seq<bool>,
    t: Seq<Option<BlockInfo>>,
    src: Mem,
    dest0: Mem,
    limit: nat,
    max_copies: nat,
    n: int,
)
    requires
        0 <= n <= t.len(),
        used.len() == t.len(),
        dest0.words.len() == limit,
        limit <= usize::MAX,
        gen1_fits(used, t, src, dest0, limit, max_copies),
    ensures
        gen1_fold(used, t, src, dest0, limit, max_copies, n) is Ok,
        gen1_packed(
            used,
            t,
            src,
            dest0,
            max_copies,
            n,
            gen1_fold(used, t, src, dest0, limit, max_copies, n)->Ok_0.0,
            gen1_fold(used, t, src, dest0, limit, max_copies, n)->Ok_0.1,
        ),
    decreases n,
{
    if n > 0 {
        law_gen1_collection_packs_blocks(used, t, src, dest0, limit, max_copies, n - 1);
        let prev = gen1_fold(used, t, src, dest0, limit, max_copies, n - 1)->Ok_0;
        let g = gen1_fold(used, t, src, dest0, limit, max_copies, n)->Ok_0;
        let j = n - 1;
        assert(prev.0[j] == t[j]);
        lemma_gen1_words_mono(used, t, max_copies, n, t.len() as int);
        lemma_gen1_words_mono(used, t, max_copies, j, n);
        if gen1_candidate(used, t, j, max_copies) {
            assert(gen1_candidate(used, prev.0, j, max_copies));
            lemma_copy_into_ok(src, t[j]->Some_0, prev.1, limit);
            let out = copy_into(src, t[j]->Some_0, prev.1, limit);
            assert(g.1 == out.1);
            assert(g.0 == prev.0.update(j, Some(out.0->Ok_0)));
            assert forall|k: int| 0 <= k < n && #[trigger] gen1_candidate(used, t, k, max_copies) implies {
                &&& g.0[k] == Some(BlockInfo {
                    start: (dest0.next + gen1_words_below(used, t, max_copies, k)) as usize,
                    size: t[k]->Some_0.size,
                    num_times_copied: (t[k]->Some_0.num_times_copied + 1) as usize,
                })
                &&& words_at(g.1.words, dest0.next + gen1_words_below(used, t, max_copies, k), t[k]->Some_0.size as int)
                    == words_at(src.words, t[k]->Some_0.start as int, t[k]->Some_0.size as int)
            } by {
                if k < j {
                    lemma_gen1_words_mono(used, t, max_copies, k + 1, j);
                    lemma_gen1_words_mono(used, t, max_copies, k, k + 1);
                    let st = dest0.next + gen1_words_below(used, t, max_copies, k);
                    assert(gen1_words_below(used, t, max_copies, k + 1) == gen1_words_below(used, t, max_copies, k) + t[k]->Some_0.size);
                    assert forall|x: int| 0 <= x < t[k]->Some_0.size implies #[trigger] g.1.words[st + x] == prev.1.words[st + x] by {
                        assert(0 <= st + x < prev.1.next);
                        assert(out.1.words[st + x] == prev.1.words[st + x]);
                    }
                    assert(words_at(g.1.words, dest0.next + gen1_words_below(used, t, max_copies, k), t[k]->Some_0.size as int)
                        =~= words_at(prev.1.words, dest0.next + gen1_words_below(used, t, max_copies, k), t[k]->Some_0.size as int));
                } else {
                    assert(words_at(g.1.words, dest0.next + gen1_words_below(used, t, max_copies, k), t[k]->Some_0.size as int)
                        =~= words_at(src.words, t[k]->Some_0.start as int, t[k]->Some_0.size as int));
                }
            }
        } else {
            assert(!gen1_candidate(used, prev.0, j, max_copies));
        }
    }
}

/// A successful generation 0 collection keeps its state placed.
pub proof fn lemma_gen0_fold_placed(
    used: Seq<bool>,
    active_0: Mem,
    s0: Gen0State,
    live: Set<int>,
    limit: nat,
    max_copies: nat,
    n: int,
)
    requires
        0 <= n <= s0.table.len(),
        used.len() == s0.table.len(),
        limit <= usize::MAX,
        gen0_state_sized(s0, limit),
        copies_below(s0.table, usize::MAX - 1),
        forall|k: int| 0 <= k < used.len() && #[trigger] live.contains(k) ==> used[k],
        placed(s0, active_0, s0.table, live, 0, max_copies),
        gen0_fold(used, active_0, s0, limit, max_copies, n) is Ok,
    ensures
        gen0_state_sized(gen0_fold(used, active_0, s0, limit, max_copies, n)->Ok_0, limit),
        placed(gen0_fold(used, active_0, s0, limit, max_copies, n)->Ok_0, active_0, s0.table, live, n, max_copies),
    decreases n,
{
    if n > 0 {
        lemma_gen0_fold_placed(used, active_0, s0, live, limit, max_copies, n - 1);
        let prev = gen0_fold(used, active_0, s0, limit, max_copies, n - 1)->Ok_0;
        lemma_gen0_step_placed(used, active_0, prev, s0.table, live, n - 1, limit, max_copies);
    }
}

/// A generation 1 collection that succeeds leaves alone the entries that are
/// not copied and every word below the first free word of `dest`, and keeps
/// the word at offset `o` of a copied block `k` that held `v` in `src`.
pub proof fn lemma_gen1_fold_keeps_word(
    used: Seq<bool>,
    t0: Seq<Option<BlockInfo>>,
    src: Mem,
    dest0: Mem,
    limit: nat,
    max_copies: nat,
    n: int,
    k: int,
    o: int,
    v: u64,
)
    requires
        0 <= n <= t0.len(),
        dest0.words.len() == limit,
        limit <= usize::MAX,
        gen1_fold(used, t0, src, dest0, limit, max_copies, n) is Ok,
        gen1_candidate(used, t0, k, max_copies) ==> {
            &&& t0[k]->Some_0.num_times_copied < usize::MAX
            &&& 0 <= o < t0[k]->Some_0.size
            &&& t0[k]->Some_0.start + o < src.next
            &&& src.words[t0[k]->Some_0.start + o] == v
        },
    ensures
        ({
            let g = gen1_fold(used, t0, src, dest0, limit, max_copies, n)->Ok_0;
            &&& g.0.len() == t0.len()
            &&& g.1.words.len() == limit
            &&& g.1.next >= dest0.next
            &&& forall|a: int| 0 <= a < dest0.next ==> #[trigger] g.1.words[a] == dest0.words[a]
            &&& forall|j: int| 0 <= j < t0.len() && !gen1_candidate(used, t0, j, max_copies) ==> #[trigger] g.0[j] == t0[j]
            &&& forall|j: int| n <= j < t0.len() ==> #[trigger] g.0[j] == t0[j]
            &&& (gen1_candidate(used, t0, k, max_copies) && k < n) ==> {
                let e = g.0[k]->Some_0;
                &&& g.0[k] is Some
                &&& e.size == t0[k]->Some_0.size
                &&& e.num_times_copied > max_copies
                &&& e.start + o < g.1.next
                &&& g.1.words[e.start + o] == v
            }
        }),
    decreases n,
{
    if n > 0 {
        lemma_gen1_fold_keeps_word(used, t0, src, dest0, limit, max_copies, n - 1, k, o, v);
        let prev = gen1_fold(used, t0, src, dest0, limit, max_copies, n - 1)->Ok_0;
        let j = n - 1;
        if gen1_candidate(used, prev.0, j, max_copies) {
            lemma_copy_into_ok(src, prev.0[j]->Some_0, prev.1, limit);
            let out = copy_into(src, prev.0[j]->Some_0, prev.1, limit);
            if k == j && gen1_candidate(used, t0, k, max_copies) {
                assert(out.1.words[prev.1.next + o] == src.words[prev.0[j]->Some_0.start + o]);
            }
        }
    }
}

/// In state `s` of a generation 0 collection that has handled the block
/// numbers below `i`, the word at offset `o` of block `k`, whose entry was
/// `e0`, still holds `v` wherever the block now lies.
pub open spec fn word_kept(s: Gen0State, active_0: Mem, e0: BlockInfo, k: int, o: int, v: u64, i: int, max_copies: nat) -> bool {
    let e = s.table[k]->Some_0;
    &&& s.table[k] is Some
    &&& e.size == e0.size
    &&& !s.gen_1_collected ==> e.num_times_copied <= e0.num_times_copied + 1
    &&& (e.num_times_copied <= max_copies && k < i) ==> e.num_times_copied == e0.num_times_copied + 1
    &&& e0.num_times_copied < max_copies ==> e.num_times_copied <= max_copies
    &&& if e.num_times_copied > max_copies {
        let m = if s.gen_1_collected { s.inactive_1 } else { s.active_1 };
        e.start + o < m.next && m.words[e.start + o] == v
    } else if k < i {
        e.start + o < s.inactive_0.next && s.inactive_0.words[e.start + o] == v
    } else {
        e == e0 && e0.start + o < active_0.next && active_0.words[e0.start + o] == v
    }
}

/// One successful step of a generation 0 collection keeps the word.
pub proof fn lemma_gen0_step_keeps_word(
    used: Seq<bool>,
    active_0: Mem,
    s: Gen0State,
    i: int,
    limit: nat,
    max_copies: nat,
    e0: BlockInfo,
    k: int,
    o: int,
    v: u64,
)
    requires
        0 <= i < s.table.len(),
        0 <= k < s.table.len(),
        k < used.len(),
        used[k],
        0 <= o < e0.size,
        e0.num_times_copied < usize::MAX - 1,
        limit <= usize::MAX,
        gen0_state_sized(s, limit),
        word_kept(s, active_0, e0, k, o, v, i, max_copies),
        gen0_step(used, active_0, s, i, limit, max_copies) is Ok,
    ensures
        gen0_state_sized(gen0_step(used, active_0, s, i, limit, max_copies)->Ok_0, limit),
        gen0_step(used, active_0, s, i, limit, max_copies)->Ok_0.table.len() == s.table.len(),
        word_kept(gen0_step(used, active_0, s, i, limit, max_copies)->Ok_0, active_0, e0, k, o, v, i + 1, max_copies),
{
    let e = s.table[k]->Some_0;
    if !(0 <= i < s.table.len() && i < used.len() && used[i] && s.table[i] is Some) {
    } else {
        let block = s.table[i]->Some_0;
        if block.num_times_copied == max_copies {
            if s.gen_1_collected {
                lemma_copy_into_ok(active_0, block, s.inactive_1, limit);
                let out = copy_into(active_0, block, s.inactive_1, limit);
                if k == i {
                    assert(out.1.words[s.inactive_1.next + o] == active_0.words[block.start + o]);
                }
            } else {
                let out = copy_into(active_0, block, s.active_1, limit);
                match out.0 {
                    Ok(info) => {
                        lemma_copy_into_ok(active_0, block, s.active_1, limit);
                        if k == i {
                            assert(out.1.words[s.active_1.next + o] == active_0.words[block.start + o]);
                        }
                    },
                    Err(HeapError::OutOfMemory) => {
                        lemma_gen1_fold_keeps_word(
                            used,
                            s.table,
                            s.active_1,
                            s.inactive_1,
                            limit,
                            max_copies,
                            s.table.len() as int,
                            k,
                            o,
                            v,
                        );
                        let g = gen1_fold(used, s.table, s.active_1, s.inactive_1, limit, max_copies, s.table.len() as int)->Ok_0;
                        assert(!gen1_candidate(used, s.table, i, max_copies));
                        assert(g.0[i] == s.table[i]);
                        lemma_copy_into_ok(active_0, block, g.1, limit);
                        let moved = copy_into(active_0, block, g.1, limit);
                        if k == i {
                            assert(moved.1.words[g.1.next + o] == active_0.words[block.start + o]);
                        } else if !gen1_candidate(used, s.table, k, max_copies) {
                            assert(g.0[k] == s.table[k]);
                        }
                    },
                    Err(_) => {},
                }
            }
        } else if block.num_times_copied < max_copies {
            lemma_copy_into_ok(active_0, block, s.inactive_0, limit);
            let out = copy_into(active_0, block, s.inactive_0, limit);
            if k == i {
                assert(out.1.words[s.inactive_0.next + o] == active_0.words[block.start + o]);
            }
        } else {
        }
    }
}

/// A successful generation 0 collection keeps the word.
pub proof fn lemma_gen0_fold_keeps_word(
    used: Seq<bool>,
    active_0: Mem,
    s0: Gen0State,
    limit: nat,
    max_copies: nat,
    n: int,
    e0: BlockInfo,
    k: int,
    o: int,
    v: u64,
)
    requires
        0 <= n <= s0.table.len(),
        0 <= k < s0.table.len(),
        k < used.len(),
        used[k],
        0 <= o < e0.size,
        e0.num_times_copied < usize::MAX - 1,
        limit <= usize::MAX,
        gen0_state_sized(s0, limit),
        word_kept(s0, active_0, e0, k, o, v, 0, max_copies),
        gen0_fold(used, active_0, s0, limit, max_copies, n) is Ok,
    ensures
        gen0_state_sized(gen0_fold(used, active_0, s0, limit, max_copies, n)->Ok_0, limit),
        gen0_fold(used, active_0, s0, limit, max_copies, n)->Ok_0.table.len() == s0.table.len(),
        word_kept(gen0_fold(used, active_0, s0, limit, max_copies, n)->Ok_0, active_0, e0, k, o, v, n, max_copies),
    decreases n,
{
    if n > 0 {
        lemma_gen0_fold_keeps_word(used, active_0, s0, limit, max_copies, n - 1, e0, k, o, v);
        let prev = gen0_fold(used, active_0, s0, limit, max_copies, n - 1)->Ok_0;
        lemma_gen0_step_keeps_word(used, active_0, prev, n - 1, limit, max_copies, e0, k, o, v);
    }
}

/// Where block `e` goes in a generation 0 collection: 0 when it stays in
/// generation 0, 1 when it is due for promotion, 2 when it is already in
/// generation 1.
pub open spec fn age_class(e: BlockInfo, max_copies: nat) -> int {
    if e.num_times_copied < max_copies {
        0
    } else if e.num_times_copied == max_copies {
        1
    } else {
        2
    }
}

/// The block numbers marked in `used`.
pub open spec fn marked(used: Seq<bool>) -> Set<int> {
    Set::new(|k: int| 0 <= k < used.len() && used[k])
}

/// The number of words of the blocks below `n` that are marked in `used`,
/// allocated in `t`, and of class `c`.
pub open spec fn marked_words(used: Seq<bool>, t: Seq<Option<BlockInfo>>, max_copies: nat, c: int, n: int) -> int
    decreases n,
{
    if n <= 0 {
        0
    } else {
        marked_words(used, t, max_copies, c, n - 1) + if 0 <= n - 1 < t.len() && n - 1 < used.len() && used[n - 1]
            && t[n - 1] is Some && age_class(t[n - 1]->Some_0, max_copies) == c {
            t[n - 1]->Some_0.size as int
        } else {
            0
        }
    }
}

pub proof fn lemma_marked_words_mono(used: Seq<bool>, t: Seq<Option<BlockInfo>>, max_copies: nat, c: int, n: int, m: int)
    requires
        0 <= n <= m,
    ensures
        0 <= marked_words(used, t, max_copies, c, n) <= marked_words(used, t, max_copies, c, m),
    decreases m,
{
    if m > n {
        lemma_marked_words_mono(used, t, max_copies, c, n, m - 1);
    } else if n > 0 {
        lemma_marked_words_mono(used, t, max_copies, c, n - 1, n - 1);
    }
}

/// Entry `k` of table `t`, in a generation 0 collection that started from
/// `t0`, has handled the block numbers below `i` and has not collected
/// generation 1: a marked block below `i` not yet in generation 1 has been
/// copied once more, and every other entry is as it was.
pub open spec fn entry_tracked(
    used: Seq<bool>,
    t0: Seq<Option<BlockInfo>>,
    t: Seq<Option<BlockInfo>>,
    max_copies: nat,
    i: int,
    k: int,
) -> bool {
    &&& (t[k] is Some) == (t0[k] is Some)
    &&& t[k] is Some ==> t[k]->Some_0.size == t0[k]->Some_0.size
    &&& (t0[k] is Some && used[k] && k < i && t0[k]->Some_0.num_times_copied <= max_copies)
        ==> t[k]->Some_0.num_times_copied == t0[k]->Some_0.num_times_copied + 1
    &&& (t0[k] is Some && !(used[k] && k < i && t0[k]->Some_0.num_times_copied <= max_copies)) ==> t[k] == t0[k]
}

/// While generation 1 has not been collected, the words of the blocks that a
/// generation 1 collection would copy are those of the marked generation 1
/// blocks and of the marked blocks promoted so far.
pub proof fn lemma_gen1_words_uncollected(
    used: Seq<bool>,
    t0: Seq<Option<BlockInfo>>,
    t: Seq<Option<BlockInfo>>,
    max_copies: nat,
    i: int,
    m: int,
)
    requires
        0 <= i <= t.len(),
        0 <= m <= t.len(),
        t.len() == t0.len(),
        used.len() == t.len(),
        forall|k: int| 0 <= k < t.len() ==> #[trigger] entry_tracked(used, t0, t, max_copies, i, k),
    ensures
        gen1_words_below(used, t, max_copies, m) == marked_words(used, t0, max_copies, 2, m) + marked_words(
            used,
            t0,
            max_copies,
            1,
            if m <= i { m } else { i },
        ),
    decreases m,
{
    if m > 0 {
        lemma_gen1_words_uncollected(used, t0, t, max_copies, i, m - 1);
        assert(entry_tracked(used, t0, t, max_copies, i, m - 1));
    }
}

/// A generation 0 collection that started from `s0` with the blocks marked in
/// `used`, copying out of `active_0`, is on track at block number `i`: the
/// marked blocks are placed, the young ones copied so far fill the inactive
/// generation 0 half from where it started, the classes of the blocks still
/// to handle are as they were, and generation 1 holds what has been put there.
pub open spec fn gen0_on_track(s: Gen0State, s0: Gen0State, used: Seq<bool>, active_0: Mem, limit: nat, max_copies: nat, i: int) -> bool {
    let t0 = s0.table;
    let n = t0.len() as int;
    &&& placed(s, active_0, t0, marked(used), i, max_copies)
    &&& gen0_state_sized(s, limit)
    &&& s.inactive_0.next == s0.inactive_0.next + marked_words(used, t0, max_copies, 0, i)
    &&& forall|k: int| 0 <= k < n ==> (#[trigger] s.table[k] is Some) == (t0[k] is Some)
    &&& forall|k: int| i <= k < n && #[trigger] t0[k] is Some ==> {
        &&& t0[k]->Some_0.num_times_copied <= max_copies ==> s.table[k] == t0[k]
        &&& t0[k]->Some_0.num_times_copied > max_copies ==> s.table[k] is Some && s.table[k]->Some_0.num_times_copied > max_copies
    }
    &&& !s.gen_1_collected ==> {
        &&& s.inactive_1 == s0.inactive_1
        &&& s.active_1.next == s0.active_1.next + marked_words(used, t0, max_copies, 1, i)
        &&& forall|k: int| 0 <= k < n ==> #[trigger] entry_tracked(used, t0, s.table, max_copies, i, k)
    }
    &&& s.gen_1_collected ==> s.inactive_1.next == s0.inactive_1.next + marked_words(used, t0, max_copies, 2, n)
        + marked_words(used, t0, max_copies, 1, i)
}

/// A copy out of `src` of a block of at least one word that lies in `src`
/// fails only for lack of room in `dest`.
pub proof fn lemma_copy_into_fits(src: Mem, info: BlockInfo, dest: Mem, limit: nat)
    requires
        1 <= info.size,
        lies_in(info, src),
    ensures
        (copy_into(src, info, dest, limit).0 is Ok) == (dest.next + info.size <= limit),
        copy_into(src, info, dest, limit).0 is Err ==> copy_into(src, info, dest, limit).0 == Err::<BlockInfo, HeapError>(HeapError::OutOfMemory),
{
}

/// One step of a generation 0 collection that is on track and whose marked
/// blocks fit succeeds and stays on track.
#[verifier::rlimit(60)]
pub proof fn lemma_gen0_step_on_track(
    used: Seq<bool>,
    active_0: Mem,
    s0: Gen0State,
    s: Gen0State,
    i: int,
    limit: nat,
    max_copies: nat,
)
    requires
        0 <= i < s0.table.len(),
        used.len() == s0.table.len(),
        s.table.len() == s0.table.len(),
        limit <= usize::MAX,
        copies_below(s0.table, usize::MAX - 1),
        s0.inactive_0.next + marked_words(used, s0.table, max_copies, 0, s0.table.len() as int) <= limit,
        s0.inactive_1.next + marked_words(used, s0.table, max_copies, 1, s0.table.len() as int) + marked_words(
            used,
            s0.table,
            max_copies,
            2,
            s0.table.len() as int,
        ) <= limit || (!s.gen_1_collected && s0.active_1.next + marked_words(used, s0.table, max_copies, 1, s0.table.len() as int)
            <= limit),
        gen0_on_track(s, s0, used, active_0, limit, max_copies, i),
    ensures
        gen0_step(used, active_0, s, i, limit, max_copies) is Ok,
        gen0_on_track(gen0_step(used, active_0, s, i, limit, max_copies)->Ok_0, s0, used, active_0, limit, max_copies, i + 1),
        (!s.gen_1_collected && s0.active_1.next + marked_words(used, s0.table, max_copies, 1, s0.table.len() as int) <= limit)
            ==> !gen0_step(used, active_0, s, i, limit, max_copies)->Ok_0.gen_1_collected,
{
    let t0 = s0.table;
    let n = t0.len() as int;
    let live = marked(used);
    lemma_marked_words_mono(used, t0, max_copies, 0, i + 1, n);
    lemma_marked_words_mono(used, t0, max_copies, 1, i + 1, n);
    lemma_marked_words_mono(used, t0, max_copies, 2, n, n);
    lemma_marked_words_mono(used, t0, max_copies, 0, i, i + 1);
    lemma_marked_words_mono(used, t0, max_copies, 1, i, i + 1);
    assert(forall|k: int| 0 <= k < used.len() && #[trigger] live.contains(k) ==> used[k]);
    if !(used[i] && s.table[i] is Some) {
        assert(gen0_step(used, active_0, s, i, limit, max_copies) == Ok::<Gen0State, (HeapError, Gen0State)>(s));
        lemma_gen0_step_placed(used, active_0, s, t0, live, i, limit, max_copies);
        if !s.gen_1_collected {
            assert forall|k: int| 0 <= k < n implies #[trigger] entry_tracked(used, t0, s.table, max_copies, i + 1, k) by {
                assert(entry_tracked(used, t0, s.table, max_copies, i, k));
            }
        }
    } else {
        let e = s.table[i]->Some_0;
        assert(t0[i] is Some);
        assert(live.contains(i));
        if e.num_times_copied > max_copies {
            assert(t0[i]->Some_0.num_times_copied > max_copies);
            assert(gen0_step(used, active_0, s, i, limit, max_copies) == Ok::<Gen0State, (HeapError, Gen0State)>(s));
            lemma_gen0_step_placed(used, active_0, s, t0, live, i, limit, max_copies);
            if !s.gen_1_collected {
                assert forall|k: int| 0 <= k < n implies #[trigger] entry_tracked(used, t0, s.table, max_copies, i + 1, k) by {
                    assert(entry_tracked(used, t0, s.table, max_copies, i, k));
                }
            }
        } else {
            assert(s.table[i] == t0[i]);
            assert(lies_in(e, active_0));
            assert(1 <= e.size);
            if e.num_times_copied < max_copies {
                lemma_copy_into_fits(active_0, e, s.inactive_0, limit);
                lemma_copy_into_ok(active_0, e, s.inactive_0, limit);
                let out = copy_into(active_0, e, s.inactive_0, limit);
                let s2 = Gen0State { table: s.table.update(i, Some(out.0->Ok_0)), inactive_0: out.1, ..s };
                assert(gen0_step(used, active_0, s, i, limit, max_copies) == Ok::<Gen0State, (HeapError, Gen0State)>(s2));
                lemma_gen0_step_placed(used, active_0, s, t0, live, i, limit, max_copies);
                if !s.gen_1_collected {
                    assert forall|k: int| 0 <= k < n implies #[trigger] entry_tracked(used, t0, s2.table, max_copies, i + 1, k) by {
                        assert(entry_tracked(used, t0, s.table, max_copies, i, k));
                    }
                }
            } else if s.gen_1_collected {
                lemma_copy_into_fits(active_0, e, s.inactive_1, limit);
                lemma_copy_into_ok(active_0, e, s.inactive_1, limit);
                lemma_gen0_step_placed(used, active_0, s, t0, live, i, limit, max_copies);
            } else {
                lemma_copy_into_fits(active_0, e, s.active_1, limit);
                let out = copy_into(active_0, e, s.active_1, limit);
                if out.0 is Ok {
                    lemma_copy_into_ok(active_0, e, s.active_1, limit);
                    let s2 = Gen0State { table: s.table.update(i, Some(out.0->Ok_0)), active_1: out.1, ..s };
                    assert(gen0_step(used, active_0, s, i, limit, max_copies) == Ok::<Gen0State, (HeapError, Gen0State)>(s2));
                    lemma_gen0_step_placed(used, active_0, s, t0, live, i, limit, max_copies);
                    assert forall|k: int| 0 <= k < n implies #[trigger] entry_tracked(used, t0, s2.table, max_copies, i + 1, k) by {
                        assert(entry_tracked(used, t0, s.table, max_copies, i, k));
                    }
                } else {
                    lemma_gen1_words_uncollected(used, t0, s.table, max_copies, i, n);
                    assert forall|k: int| #[trigger] gen1_candidate(used, s.table, k, max_copies) implies {
                        &&& lies_in(s.table[k]->Some_0, s.active_1)
                        &&& 1 <= s.table[k]->Some_0.size
                        &&& s.table[k]->Some_0.num_times_copied < usize::MAX
                    } by {
                        assert(live.contains(k));
                        assert(t0[k] is Some);
                    }
                    assert(gen1_fits(used, s.table, s.active_1, s.inactive_1, limit, max_copies));
                    law_gen1_collection_packs_blocks(used, s.table, s.active_1, s.inactive_1, limit, max_copies, n);
                    let g = gen1_fold(used, s.table, s.active_1, s.inactive_1, limit, max_copies, n)->Ok_0;
                    assert(!gen1_candidate(used, s.table, i, max_copies));
                    assert(g.0[i] == s.table[i]);
                    lemma_copy_into_fits(active_0, e, g.1, limit);
                    lemma_copy_into_ok(active_0, e, g.1, limit);
                    let moved = copy_into(active_0, e, g.1, limit);
                    let s2 = Gen0State {
                        table: g.0.update(i, Some(moved.0->Ok_0)),
                        inactive_0: s.inactive_0,
                        active_1: cleared(s.active_1),
                        inactive_1: moved.1,
                        gen_1_collected: true,
                    };
                    assert(gen0_step(used, active_0, s, i, limit, max_copies) == Ok::<Gen0State, (HeapError, Gen0State)>(s2));
                    lemma_gen0_step_placed(used, active_0, s, t0, live, i, limit, max_copies);
                    assert forall|k: int| 0 <= k < n implies (#[trigger] s2.table[k] is Some) == (t0[k] is Some) by {
                        assert(entry_tracked(used, t0, s.table, max_copies, i, k));
                        if k != i && !gen1_candidate(used, s.table, k, max_copies) {
                            assert(g.0[k] == s.table[k]);
                        }
                    }
                    assert forall|k: int| i + 1 <= k < n && #[trigger] t0[k] is Some implies {
                        &&& t0[k]->Some_0.num_times_copied <= max_copies ==> s2.table[k] == t0[k]
                        &&& t0[k]->Some_0.num_times_copied > max_copies ==> s2.table[k] is Some
                            && s2.table[k]->Some_0.num_times_copied > max_copies
                    } by {
                        assert(entry_tracked(used, t0, s.table, max_copies, i, k));
                        if !gen1_candidate(used, s.table, k, max_copies) {
                            assert(g.0[k] == s.table[k]);
                        }
                    }
                }
            }
        }
    }
}

/// A generation 0 collection whose marked blocks fit succeeds up to block
/// number `m` and is on track there.
pub proof fn lemma_gen0_fold_on_track(used: Seq<bool>, active_0: Mem, s0: Gen0State, limit: nat, max_copies: nat, m: int)
    requires
        0 <= m <= s0.table.len(),
        used.len() == s0.table.len(),
        limit <= usize::MAX,
        copies_below(s0.table, usize::MAX - 1),
        s0.inactive_0.next + marked_words(used, s0.table, max_copies, 0, s0.table.len() as int) <= limit,
        s0.inactive_1.next + marked_words(used, s0.table, max_copies, 1, s0.table.len() as int) + marked_words(
            used,
            s0.table,
            max_copies,
            2,
            s0.table.len() as int,
        ) <= limit || (!s0.gen_1_collected && s0.active_1.next + marked_words(used, s0.table, max_copies, 1, s0.table.len() as int)
            <= limit),
        gen0_on_track(s0, s0, used, active_0, limit, max_copies, 0),
    ensures
        gen0_fold(used, active_0, s0, limit, max_copies, m) is Ok,
        gen0_on_track(gen0_fold(used, active_0, s0, limit, max_copies, m)->Ok_0, s0, used, active_0, limit, max_copies, m),
        (!s0.gen_1_collected && s0.active_1.next + marked_words(used, s0.table, max_copies, 1, s0.table.len() as int) <= limit)
            ==> !gen0_fold(used, active_0, s0, limit, max_copies, m)->Ok_0.gen_1_collected,
    decreases m,
{
    if m > 0 {
        lemma_gen0_fold_on_track(used, active_0, s0, limit, max_copies, m - 1);
        let prev = gen0_fold(used, active_0, s0, limit, max_copies, m - 1)->Ok_0;
        assert(prev.table.len() == s0.table.len());
        lemma_gen0_step_on_track(used, active_0, s0, prev, m - 1, limit, max_copies);
    }
}

impl<const HEAP_SIZE: usize, const MAX_BLOCKS: usize, const MAX_COPIES: usize> GenerationalHeap<HEAP_SIZE, MAX_BLOCKS, MAX_COPIES> {
    /// A store through a pointer that designates an allocated word is read back by a load through it.
    pub proof fn law_store_then_load(h: Self, p: Pointer, value: u64, after: Self)
        requires
            h.wf(),
            h.locate(p) is Ok,
            h.stored(h.locate(p)->Ok_0.1, h.locate(p)->Ok_0.0 as int, h.locate(p)->Ok_0.2 as int, value, &after),
        ensures
            after.load_spec(p) == Ok::<u64, HeapError>(value),
    {
        let l = h.locate(p)->Ok_0;
        assert(after.half(l.1, l.0 as int) == (Mem { words: h.half(l.1, l.0 as int).words.update(l.2 as int, value), next: h.half(l.1, l.0 as int).next }));
    }

    /// A store leaves every word stored elsewhere as it was.
    pub proof fn law_store_keeps_other_words(h: Self, p: Pointer, q: Pointer, value: u64, after: Self)
        requires
            h.wf(),
            h.locate(p) is Ok,
            h.stored(h.locate(p)->Ok_0.1, h.locate(p)->Ok_0.0 as int, h.locate(p)->Ok_0.2 as int, value, &after),
            h.locate(q) != h.locate(p),
        ensures
            after.load_spec(q) == h.load_spec(q),
    {
        let l = h.locate(p)->Ok_0;
        match h.heap_and_gen_spec(q.block) {
            Ok(hg) => {
                assert(after.half(hg.1, hg.0 as int) == if hg.1 == l.1 && hg.0 as int == l.0 as int {
                    Mem { words: h.half(l.1, l.0 as int).words.update(l.2 as int, value), next: h.half(l.1, l.0 as int).next }
                } else {
                    h.half(hg.1, hg.0 as int)
                });
            },
            Err(_) => {},
        }
    }

    /// A successful generation 0 collection leaves every word of a block that
    /// was marked in use as it was: a load through a pointer that succeeded
    /// before gives back the same word after.
    pub proof fn law_collect_gen_0_keeps_reachable(h: Self, used: Seq<bool>, after: Self, p: Pointer)
        requires
            h.wf(),
            h.gen0_collected(used, &after, Ok::<(), HeapError>(())),
            after.wf(),
            copies_below(h.table(), usize::MAX - 1),
            p.block < used.len(),
            used[p.block as int],
            h.load_spec(p) is Ok,
        ensures
            after.load_spec(p) == h.load_spec(p),
    {
        let k = p.block as int;
        let o = p.offset as int;
        let e0 = h.table()[k]->Some_0;
        let v = h.load_spec(p)->Ok_0;
        let s0 = h.gen0_start();
        let act0 = h.gen0(h.active0());
        assert(h.gen0(1 - h.active0()).words.len() == HEAP_SIZE);
        assert(h.gen1(h.active1()).words.len() == HEAP_SIZE);
        assert(h.gen1(1 - h.active1()).words.len() == HEAP_SIZE);
        assert(word_kept(s0, act0, e0, k, o, v, 0, MAX_COPIES as nat));
        lemma_gen0_fold_keeps_word(used, act0, s0, HEAP_SIZE as nat, MAX_COPIES as nat, MAX_BLOCKS as int, e0, k, o, v);
        let st = h.gen0_outcome(used)->Ok_0;
        let e = st.table[k]->Some_0;
        assert(after.table()[k] == Some(e));
        assert(address_of(after.table(), p) == Ok::<usize, HeapError>((e.start + o) as usize));
        if e.num_times_copied > MAX_COPIES {
            let m = if st.gen_1_collected { st.inactive_1 } else { st.active_1 };
            assert(after.heap_and_gen_spec(p.block) == Ok::<(usize, usize), HeapError>((after.active1() as usize, 1usize)));
            assert(after.half(1, after.active1()) == m);
        } else {
            assert(after.heap_and_gen_spec(p.block) == Ok::<(usize, usize), HeapError>((after.active0() as usize, 0usize)));
            assert(after.half(0, after.active0()) == st.inactive_0);
        }
    }

    /// A successful generation 0 collection keeps the blocks of `live`, all
    /// marked in use, apart in the active halves of their generations.
    pub proof fn law_collect_gen_0_keeps_layout(h: Self, used: Seq<bool>, after: Self, live: Set<int>)
        requires
            h.wf(),
            h.layout_on(live),
            copies_below(h.table(), usize::MAX - 1),
            used.len() == MAX_BLOCKS,
            forall|k: int| 0 <= k < MAX_BLOCKS && #[trigger] live.contains(k) ==> used[k],
            h.gen0_collected(used, &after, Ok::<(), HeapError>(())),
        ensures
            after.layout_on(live),
    {
        let s0 = h.gen0_start();
        let act0 = h.gen0(h.active0());
        assert(h.gen0(1 - h.active0()).words.len() == HEAP_SIZE);
        assert(h.gen1(h.active1()).words.len() == HEAP_SIZE);
        assert(h.gen1(1 - h.active1()).words.len() == HEAP_SIZE);
        assert(placed(s0, act0, s0.table, live, 0, MAX_COPIES as nat));
        lemma_gen0_fold_placed(used, act0, s0, live, HEAP_SIZE as nat, MAX_COPIES as nat, MAX_BLOCKS as int);
    }

    /// A generation 0 collection fails only when the marked blocks cannot all
    /// be placed: when every marked block lies in the allocated part of the
    /// active half of its generation, apart from the others, the young ones fit
    /// after the first free word of the inactive generation 0 half, and the
    /// marked generation 1 blocks together with the blocks due for promotion
    /// fit after the first free word of the inactive generation 1 half, the
    /// collection succeeds, whether or not the promoted blocks fit in the
    /// active generation 1 half (generation 1 is collected when one does
    /// not). The new active generation 0 half then holds just the young blocks.
    pub proof fn law_collect_gen_0_succeeds_when_marked_blocks_fit(h: Self, used: Seq<bool>, after: Self, r: Result<(), HeapError>)
        requires
            h.wf(),
            copies_below(h.table(), usize::MAX - 1),
            used.len() == MAX_BLOCKS,
            h.layout_on(marked(used)),
            h.gen0(1 - h.active0()).next + marked_words(used, h.table(), MAX_COPIES as nat, 0, MAX_BLOCKS as int) <= HEAP_SIZE,
            h.gen1(1 - h.active1()).next + marked_words(used, h.table(), MAX_COPIES as nat, 1, MAX_BLOCKS as int)
                + marked_words(used, h.table(), MAX_COPIES as nat, 2, MAX_BLOCKS as int) <= HEAP_SIZE,
        ensures
            h.gen0_outcome(used) is Ok,
            h.gen0_collected(used, &after, r) ==> {
                &&& r == Ok::<(), HeapError>(())
                &&& after.gen0(after.active0()).next == h.gen0(1 - h.active0()).next + marked_words(
                    used,
                    h.table(),
                    MAX_COPIES as nat,
                    0,
                    MAX_BLOCKS as int,
                )
            },
    {
        let s0 = h.gen0_start();
        let act0 = h.gen0(h.active0());
        assert(h.gen0(1 - h.active0()).words.len() == HEAP_SIZE);
        assert(h.gen1(h.active1()).words.len() == HEAP_SIZE);
        assert(h.gen1(1 - h.active1()).words.len() == HEAP_SIZE);
        assert(placed(s0, act0, s0.table, marked(used), 0, MAX_COPIES as nat));
        assert forall|k: int| 0 <= k < MAX_BLOCKS implies #[trigger] entry_tracked(used, s0.table, s0.table, MAX_COPIES as nat, 0, k) by {}
        assert(gen0_on_track(s0, s0, used, act0, HEAP_SIZE as nat, MAX_COPIES as nat, 0));
        lemma_gen0_fold_on_track(used, act0, s0, HEAP_SIZE as nat, MAX_COPIES as nat, MAX_BLOCKS as int);
    }

    /// When the marked blocks lie apart in their halves, the young ones fit
    /// after the first free word of the inactive generation 0 half, and the
    /// blocks due for promotion fit after the first free word of the active
    /// generation 1 half, a generation 0 collection succeeds without
    /// collecting generation 1: the promoted blocks go into the active
    /// generation 1 half, which grows by exactly their words, and every
    /// generation 1 block keeps its entry.
    pub proof fn law_collect_gen_0_promotes_into_active_half(h: Self, used: Seq<bool>, after: Self, r: Result<(), HeapError>)
        requires
            h.wf(),
            copies_below(h.table(), usize::MAX - 1),
            used.len() == MAX_BLOCKS,
            h.layout_on(marked(used)),
            h.gen0(1 - h.active0()).next + marked_words(used, h.table(), MAX_COPIES as nat, 0, MAX_BLOCKS as int) <= HEAP_SIZE,
            h.gen1(h.active1()).next + marked_words(used, h.table(), MAX_COPIES as nat, 1, MAX_BLOCKS as int) <= HEAP_SIZE,
            h.gen0_collected(used, &after, r),
        ensures
            r == Ok::<(), HeapError>(()),
            after.active1() == h.active1(),
            after.gen1(after.active1()).next == h.gen1(h.active1()).next + marked_words(
                used,
                h.table(),
                MAX_COPIES as nat,
                1,
                MAX_BLOCKS as int,
            ),
            forall|k: int|
                0 <= k < MAX_BLOCKS && #[trigger] h.table()[k] is Some && h.table()[k]->Some_0.num_times_copied > MAX_COPIES
                    ==> after.table()[k] == h.table()[k],
    {
        let s0 = h.gen0_start();
        let act0 = h.gen0(h.active0());
        assert(h.gen0(1 - h.active0()).words.len() == HEAP_SIZE);
        assert(h.gen1(h.active1()).words.len() == HEAP_SIZE);
        assert(h.gen1(1 - h.active1()).words.len() == HEAP_SIZE);
        assert(placed(s0, act0, s0.table, marked(used), 0, MAX_COPIES as nat));
        assert forall|k: int| 0 <= k < MAX_BLOCKS implies #[trigger] entry_tracked(used, s0.table, s0.table, MAX_COPIES as nat, 0, k) by {}
        assert(gen0_on_track(s0, s0, used, act0, HEAP_SIZE as nat, MAX_COPIES as nat, 0));
        lemma_gen0_fold_on_track(used, act0, s0, HEAP_SIZE as nat, MAX_COPIES as nat, MAX_BLOCKS as int);
        let st = h.gen0_outcome(used)->Ok_0;
        assert forall|k: int|
            0 <= k < MAX_BLOCKS && #[trigger] h.table()[k] is Some && h.table()[k]->Some_0.num_times_copied > MAX_COPIES
                implies after.table()[k] == h.table()[k] by {
            assert(entry_tracked(used, s0.table, st.table, MAX_COPIES as nat, MAX_BLOCKS as int, k));
        }
    }

    /// A `malloc` of `n > 0` words when a block number is free succeeds when
    /// the request fits in the active generation 0 half, or when the
    /// generation 0 collection it then runs has room for the marked blocks
    /// (as in `law_collect_gen_0_succeeds_when_marked_blocks_fit`) and the
    /// request fits after the young marked blocks.
    pub proof fn law_malloc_succeeds_when_blocks_fit(
        h: Self,
        n: usize,
        used1: Seq<bool>,
        used2: Seq<bool>,
        after: Self,
        r: Result<Pointer, HeapError>,
    )
        requires
            h.wf(),
            copies_below(h.table(), usize::MAX - 1),
            used1.len() == MAX_BLOCKS,
            first_free(h.table()) is Some,
            h.malloc_steps(n, used1, used2, &after, r),
            0 < n,
            h.gen0(h.active0()).next + n <= HEAP_SIZE || {
                &&& h.layout_on(marked(used1))
                &&& h.gen0(1 - h.active0()).next + marked_words(used1, h.table(), MAX_COPIES as nat, 0, MAX_BLOCKS as int) + n
                    <= HEAP_SIZE
                &&& h.gen1(1 - h.active1()).next + marked_words(used1, h.table(), MAX_COPIES as nat, 1, MAX_BLOCKS as int)
                    + marked_words(used1, h.table(), MAX_COPIES as nat, 2, MAX_BLOCKS as int) <= HEAP_SIZE
            },
        ensures
            r == Ok::<Pointer, HeapError>(Pointer { block: first_free(h.table())->Some_0, offset: 0, size: n }),
    {
        let b = first_free(h.table())->Some_0;
        if !(h.gen0(h.active0()).next + n <= HEAP_SIZE) {
            let (mid, rc) = choose|mid: Self, rc: Result<(), HeapError>|
                {
                    &&& #[trigger] h.gen0_collected(used1, &mid, rc)
                    &&& mid.wf()
                    &&& copies_grown(h.table(), mid.table(), 2)
                    &&& match rc {
                        Err(e) => mid.same(&after) && r == Err::<Pointer, HeapError>(e),
                        Ok(_) => mid.allocate_outcome(b, n, &after, r),
                    }
                };
            Self::law_collect_gen_0_succeeds_when_marked_blocks_fit(h, used1, mid, rc);
        }
    }

    /// A successful generation 0 collection moves a marked block that has
    /// been copied fewer than `MAX_COPIES` times, and that lay in the active
    /// generation 0 half, into the new active generation 0 half, counts the
    /// copy, and keeps its words.
    pub proof fn law_collect_gen_0_moves_young_block(h: Self, used: Seq<bool>, after: Self, k: usize)
        requires
            h.wf(),
            after.wf(),
            copies_below(h.table(), usize::MAX - 1),
            used.len() == MAX_BLOCKS,
            h.gen0_collected(used, &after, Ok::<(), HeapError>(())),
            k < MAX_BLOCKS,
            used[k as int],
            h.table()[k as int] is Some,
            h.table()[k as int]->Some_0.num_times_copied < MAX_COPIES,
            lies_in(h.table()[k as int]->Some_0, h.gen0(h.active0())),
        ensures
            after.table()[k as int] is Some,
            after.table()[k as int]->Some_0.size == h.table()[k as int]->Some_0.size,
            after.table()[k as int]->Some_0.num_times_copied == h.table()[k as int]->Some_0.num_times_copied + 1,
            lies_in(after.table()[k as int]->Some_0, after.gen0(after.active0())),
            forall|o: usize| o < h.table()[k as int]->Some_0.size ==> #[trigger] after.load_spec(
                Pointer { block: k, offset: o, size: h.table()[k as int]->Some_0.size },
            ) == h.load_spec(Pointer { block: k, offset: o, size: h.table()[k as int]->Some_0.size }),
    {
        let e0 = h.table()[k as int]->Some_0;
        let s0 = h.gen0_start();
        let act0 = h.gen0(h.active0());
        let live = Set::<int>::empty().insert(k as int);
        assert(h.gen0(1 - h.active0()).words.len() == HEAP_SIZE);
        assert(h.gen1(h.active1()).words.len() == HEAP_SIZE);
        assert(h.gen1(1 - h.active1()).words.len() == HEAP_SIZE);
        assert(placed(s0, act0, s0.table, live, 0, MAX_COPIES as nat));
        lemma_gen0_fold_placed(used, act0, s0, live, HEAP_SIZE as nat, MAX_COPIES as nat, MAX_BLOCKS as int);
        assert(e0.start + e0.size <= act0.next);
        let v = act0.words[e0.start as int];
        assert(word_kept(s0, act0, e0, k as int, 0, v, 0, MAX_COPIES as nat));
        lemma_gen0_fold_keeps_word(used, act0, s0, HEAP_SIZE as nat, MAX_COPIES as nat, MAX_BLOCKS as int, e0, k as int, 0, v);
        let st = h.gen0_outcome(used)->Ok_0;
        assert(after.table()[k as int] == st.table[k as int]);
        assert(after.gen0(after.active0()) == st.inactive_0);
        assert(live.contains(k as int));
        assert forall|o: usize| o < e0.size implies #[trigger] after.load_spec(Pointer { block: k, offset: o, size: e0.size })
            == h.load_spec(Pointer { block: k, offset: o, size: e0.size }) by {
            let p = Pointer { block: k, offset: o, size: e0.size };
            assert(address_of(h.table(), p) == Ok::<usize, HeapError>((e0.start + o) as usize));
            assert(h.load_spec(p) is Ok);
            Self::law_collect_gen_0_keeps_reachable(h, used, after, p);
        }
    }

    /// A successful generation 0 collection that does not collect generation
    /// 1 leaves every generation 1 block where it was, with its count, and a
    /// block that lay in the active generation 1 half with its words.
    pub proof fn law_collect_gen_0_keeps_old_block(h: Self, used: Seq<bool>, after: Self, p: Pointer)
        requires
            h.wf(),
            used.len() == MAX_BLOCKS,
            h.gen0_collected(used, &after, Ok::<(), HeapError>(())),
            after.active1() == h.active1(),
            p.block < MAX_BLOCKS,
            h.table()[p.block as int] is Some,
            h.table()[p.block as int]->Some_0.num_times_copied > MAX_COPIES,
        ensures
            after.table()[p.block as int] == h.table()[p.block as int],
            lies_in(h.table()[p.block as int]->Some_0, h.gen1(h.active1())) ==> after.load_spec(p) == h.load_spec(p),
    {
        let s0 = h.gen0_start();
        let act0 = h.gen0(h.active0());
        assert(h.gen0(1 - h.active0()).words.len() == HEAP_SIZE);
        assert(h.gen1(h.active1()).words.len() == HEAP_SIZE);
        assert(h.gen1(1 - h.active1()).words.len() == HEAP_SIZE);
        lemma_gen0_fold_keeps_gen1(used, act0, s0, HEAP_SIZE as nat, MAX_COPIES as nat, MAX_BLOCKS as int);
        let st = h.gen0_outcome(used)->Ok_0;
        assert(!st.gen_1_collected);
        assert(after.table()[p.block as int] == h.table()[p.block as int]);
        assert(after.gen1(after.active1()) == st.active_1);
        let e = h.table()[p.block as int]->Some_0;
        if address_of(h.table(), p) is Ok {
            assert(address_of(h.table(), p) == Ok::<usize, HeapError>((e.start + p.offset) as usize));
        }
    }

    /// Two pointers to different words of allocated blocks of `live`, whose
    /// blocks lie apart, never designate the same word of the same half.
    pub proof fn law_blocks_never_overlap(h: Self, live: Set<int>, p: Pointer, q: Pointer)
        requires
            h.wf(),
            h.layout_on(live),
            live.contains(p.block as int),
            live.contains(q.block as int),
            h.locate(p) is Ok,
            h.locate(q) is Ok,
            p.block != q.block || p.offset != q.offset,
        ensures
            h.locate(p) != h.locate(q),
    {
        let ep = h.table()[p.block as int]->Some_0;
        let eq = h.table()[q.block as int]->Some_0;
        assert(h.table()[p.block as int] is Some);
        assert(h.table()[q.block as int] is Some);
        assert(address_of(h.table(), p) == Ok::<usize, HeapError>((ep.start + p.offset) as usize));
        assert(address_of(h.table(), q) == Ok::<usize, HeapError>((eq.start + q.offset) as usize));
    }

    /// A store through a pointer to an allocated word of a block of `live`,
    /// whose blocks lie apart, leaves the word that any pointer to another
    /// word of a block of `live` designates as it was.
    pub proof fn law_store_keeps_other_pointers(h: Self, live: Set<int>, p: Pointer, q: Pointer, value: u64, after: Self)
        requires
            h.wf(),
            h.layout_on(live),
            live.contains(p.block as int),
            live.contains(q.block as int),
            h.locate(p) is Ok,
            h.stored(h.locate(p)->Ok_0.1, h.locate(p)->Ok_0.0 as int, h.locate(p)->Ok_0.2 as int, value, &after),
            p.block != q.block || p.offset != q.offset,
        ensures
            after.load_spec(q) == h.load_spec(q),
    {
        if h.locate(q) is Ok {
            Self::law_blocks_never_overlap(h, live, p, q);
        }
        Self::law_store_keeps_other_words(h, p, q, value, after);
    }

    /// Allocating a free block leaves every load that succeeded through
    /// another block as it was.
    proof fn lemma_allocated_keeps_load(h: Self, b: usize, n: usize, after: Self, p: Pointer)
        requires
            h.wf(),
            h.allocated(b, n, &after),
            b < MAX_BLOCKS,
            b != p.block,
            h.load_spec(p) is Ok,
        ensures
            after.load_spec(p) == h.load_spec(p),
    {
        let a0 = h.active0();
        assert(after.table()[p.block as int] == h.table()[p.block as int]);
        assert(after.gen0(a0).words == h.gen0(a0).words);
        assert(after.gen1(h.active1()) == h.gen1(h.active1()));
        assert(after.gen0(1 - a0) == h.gen0(1 - a0));
        assert(after.gen1(1 - h.active1()) == h.gen1(1 - h.active1()));
    }

    /// Allocating block `b` at the first unallocated word of the active
    /// generation 0 half keeps the blocks of `live` apart and puts `b` apart
    /// from them.
    proof fn lemma_allocated_keeps_layout(h: Self, b: usize, n: usize, after: Self, live: Set<int>)
        requires
            h.wf(),
            h.allocated(b, n, &after),
            b < MAX_BLOCKS,
            h.layout_on(live),
        ensures
            after.layout_on(live.insert(b as int)),
            after.table()[b as int] == Some(BlockInfo { start: h.gen0(h.active0()).next as usize, size: n, num_times_copied: 0 }),
            lies_in(after.table()[b as int]->Some_0, after.gen0(after.active0())),
    {
        let a0 = h.active0();
        let live2 = live.insert(b as int);
        assert(after.gen1(h.active1()) == h.gen1(h.active1()));
        assert(after.table().len() == MAX_BLOCKS);
        assert forall|k: int| 0 <= k < after.table().len() && #[trigger] live2.contains(k) && after.table()[k] is Some
            implies lies_in(after.table()[k]->Some_0, after.home(after.table()[k]->Some_0)) by {
            if k != b as int {
                assert(live.contains(k));
                assert(after.table()[k] == h.table()[k]);
            }
        }
        assert forall|j: int, k: int|
            0 <= j < after.table().len() && 0 <= k < after.table().len() && j != k && #[trigger] live2.contains(j)
                && #[trigger] live2.contains(k) && after.table()[j] is Some && after.table()[k] is Some
                && (after.table()[j]->Some_0.num_times_copied > MAX_COPIES) == (after.table()[k]->Some_0.num_times_copied > MAX_COPIES)
                implies apart(after.table()[j]->Some_0, after.table()[k]->Some_0) by {
            if j != b as int && k != b as int {
                assert(live.contains(j) && live.contains(k));
                assert(after.table()[j] == h.table()[j] && after.table()[k] == h.table()[k]);
            } else if j == b as int {
                assert(live.contains(k));
                assert(after.table()[k] == h.table()[k]);
            } else {
                assert(live.contains(j));
                assert(after.table()[j] == h.table()[j]);
            }
        }
    }

    /// A successful `malloc_in_block` step keeps every load that succeeded
    /// through a block marked in `used`.
    proof fn lemma_malloc_in_block_keeps(h: Self, b: usize, n: usize, used: Seq<bool>, after: Self, r: Result<Pointer, HeapError>, p: Pointer)
        requires
            h.wf(),
            copies_below(h.table(), usize::MAX - 1),
            used.len() == MAX_BLOCKS,
            b < MAX_BLOCKS,
            h.table()[b as int] is None,
            h.malloc_in_block(b, n, used, &after, r),
            r is Ok,
            p.block < MAX_BLOCKS,
            used[p.block as int],
            h.load_spec(p) is Ok,
        ensures
            after.load_spec(p) == h.load_spec(p),
    {
        assert(h.table()[p.block as int] is Some);
        if n > 0 && h.gen0(h.active0()).next + n <= HEAP_SIZE {
            Self::lemma_allocated_keeps_load(h, b, n, after, p);
        } else {
            let (mid, rc) = choose|mid: Self, rc: Result<(), HeapError>|
                {
                    &&& #[trigger] h.gen0_collected(used, &mid, rc)
                    &&& mid.wf()
                    &&& copies_grown(h.table(), mid.table(), 2)
                    &&& match rc {
                        Err(e) => mid.same(&after) && r == Err::<Pointer, HeapError>(e),
                        Ok(_) => mid.allocate_outcome(b, n, &after, r),
                    }
                };
            assert(rc == Ok::<(), HeapError>(()));
            Self::law_collect_gen_0_keeps_reachable(h, used, mid, p);
            Self::lemma_allocated_keeps_load(mid, b, n, after, p);
        }
    }

    /// A successful `malloc_in_block` step allocates block `b` to `n` words
    /// apart from the blocks of `live`, all marked in `used`.
    proof fn lemma_malloc_in_block_layout(h: Self, b: usize, n: usize, used: Seq<bool>, after: Self, p: Pointer, live: Set<int>)
        requires
            h.wf(),
            copies_below(h.table(), usize::MAX - 1),
            used.len() == MAX_BLOCKS,
            b < MAX_BLOCKS,
            h.malloc_in_block(b, n, used, &after, Ok::<Pointer, HeapError>(p)),
            h.layout_on(live),
            forall|k: int| 0 <= k < MAX_BLOCKS && #[trigger] live.contains(k) ==> used[k],
        ensures
            p == (Pointer { block: b, offset: 0, size: n }),
            after.layout_on(live.insert(b as int)),
            after.table()[b as int] is Some,
            after.table()[b as int]->Some_0.size == n,
            after.table()[b as int]->Some_0.num_times_copied == 0,
            lies_in(after.table()[b as int]->Some_0, after.gen0(after.active0())),
    {
        if n > 0 && h.gen0(h.active0()).next + n <= HEAP_SIZE {
            Self::lemma_allocated_keeps_layout(h, b, n, after, live);
        } else {
            let (mid, rc) = choose|mid: Self, rc: Result<(), HeapError>|
                {
                    &&& #[trigger] h.gen0_collected(used, &mid, rc)
                    &&& mid.wf()
                    &&& copies_grown(h.table(), mid.table(), 2)
                    &&& match rc {
                        Err(e) => mid.same(&after) && Ok::<Pointer, HeapError>(p) == Err::<Pointer, HeapError>(e),
                        Ok(_) => mid.allocate_outcome(b, n, &after, Ok::<Pointer, HeapError>(p)),
                    }
                };
            assert(rc == Ok::<(), HeapError>(()));
            Self::law_collect_gen_0_keeps_layout(h, used, mid, live);
            Self::lemma_allocated_keeps_layout(mid, b, n, after, live);
        }
    }

    /// Across a whole successful `malloc`, a block that both reports of the
    /// tracer mark in use keeps every word that a load gave back before.
    pub proof fn law_malloc_keeps_marked_blocks(
        h: Self,
        n: usize,
        used1: Seq<bool>,
        used2: Seq<bool>,
        after: Self,
        r: Result<Pointer, HeapError>,
        p: Pointer,
    )
        requires
            h.wf(),
            copies_below(h.table(), usize::MAX - 3),
            used1.len() == MAX_BLOCKS,
            used2.len() == MAX_BLOCKS,
            h.malloc_steps(n, used1, used2, &after, r),
            r is Ok,
            p.block < MAX_BLOCKS,
            used1[p.block as int],
            used2[p.block as int],
            h.load_spec(p) is Ok,
        ensures
            after.load_spec(p) == h.load_spec(p),
    {
        lemma_first_free(h.table());
        match first_free(h.table()) {
            Some(b) => {
                Self::lemma_malloc_in_block_keeps(h, b, n, used1, after, r, p);
            },
            None => {
                let (mid, rc) = choose|mid: Self, rc: Result<(), HeapError>|
                    {
                        &&& #[trigger] h.gen0_collected(used1, &mid, rc)
                        &&& mid.wf()
                        &&& copies_grown(h.table(), mid.table(), 2)
                        &&& match rc {
                            Err(e) => mid.same(&after) && r == Err::<Pointer, HeapError>(e),
                            Ok(_) => match first_free(mid.table()) {
                                None => mid.same(&after) && r == Err::<Pointer, HeapError>(HeapError::OutOfBlocks),
                                Some(b) => mid.malloc_in_block(b, n, used2, &after, r),
                            },
                        }
                    };
                assert(rc == Ok::<(), HeapError>(()));
                Self::law_collect_gen_0_keeps_reachable(h, used1, mid, p);
                lemma_first_free(mid.table());
                let b = first_free(mid.table())->Some_0;
                assert(copies_below(mid.table(), usize::MAX - 1)) by {
                    assert forall|k: int| 0 <= k < mid.table().len() && #[trigger] mid.table()[k] is Some
                        implies mid.table()[k]->Some_0.num_times_copied < usize::MAX - 1 by {
                        assert(mid.table()[k]->Some_0.num_times_copied <= copies_of(h.table(), k) + 2);
                    }
                }
                Self::lemma_malloc_in_block_keeps(mid, b, n, used2, after, r, p);
            },
        }
    }

    /// A successful `malloc` allocates `n` words, at offset 0 of a block, that
    /// lie apart from every block of `live`, whose blocks lay apart before
    /// and which both reports of the tracer mark in use: no pointer to a word
    /// of such a block designates a word of the new one.
    pub proof fn law_malloc_result_overlaps_nothing(
        h: Self,
        n: usize,
        used1: Seq<bool>,
        used2: Seq<bool>,
        after: Self,
        p: Pointer,
        live: Set<int>,
        q: Pointer,
        o: usize,
    )
        requires
            h.wf(),
            after.wf(),
            copies_below(h.table(), usize::MAX - 3),
            used1.len() == MAX_BLOCKS,
            used2.len() == MAX_BLOCKS,
            h.malloc_steps(n, used1, used2, &after, Ok::<Pointer, HeapError>(p)),
            h.layout_on(live),
            forall|k: int| 0 <= k < MAX_BLOCKS && #[trigger] live.contains(k) ==> used1[k] && used2[k],
        ensures
            p.offset == 0 && p.size == n,
            after.layout_on(live.insert(p.block as int)),
            o < n ==> after.locate(Pointer { block: p.block, offset: o, size: n }) is Ok,
            (o < n && live.contains(q.block as int) && q.block != p.block && after.locate(q) is Ok)
                ==> after.locate(Pointer { block: p.block, offset: o, size: n }) != after.locate(q),
    {
        lemma_first_free(h.table());
        match first_free(h.table()) {
            Some(b) => {
                Self::lemma_malloc_in_block_layout(h, b, n, used1, after, p, live);
            },
            None => {
                let (mid, rc) = choose|mid: Self, rc: Result<(), HeapError>|
                    {
                        &&& #[trigger] h.gen0_collected(used1, &mid, rc)
                        &&& mid.wf()
                        &&& copies_grown(h.table(), mid.table(), 2)
                        &&& match rc {
                            Err(e) => mid.same(&after) && Ok::<Pointer, HeapError>(p) == Err::<Pointer, HeapError>(e),
                            Ok(_) => match first_free(mid.table()) {
                                None => mid.same(&after) && Ok::<Pointer, HeapError>(p) == Err::<Pointer, HeapError>(HeapError::OutOfBlocks),
                                Some(b) => mid.malloc_in_block(b, n, used2, &after, Ok::<Pointer, HeapError>(p)),
                            },
                        }
                    };
                assert(rc == Ok::<(), HeapError>(()));
                Self::law_collect_gen_0_keeps_layout(h, used1, mid, live);
                lemma_first_free(mid.table());
                let b = first_free(mid.table())->Some_0;
                assert(copies_below(mid.table(), usize::MAX - 1)) by {
                    assert forall|k: int| 0 <= k < mid.table().len() && #[trigger] mid.table()[k] is Some
                        implies mid.table()[k]->Some_0.num_times_copied < usize::MAX - 1 by {
                        assert(mid.table()[k]->Some_0.num_times_copied <= copies_of(h.table(), k) + 2);
                    }
                }
                Self::lemma_malloc_in_block_layout(mid, b, n, used2, after, p, live);
            },
        }
        let pn = Pointer { block: p.block, offset: o, size: n };
        let e = after.table()[p.block as int]->Some_0;
        if o < n {
            assert(address_of(after.table(), pn) == Ok::<usize, HeapError>((e.start + o) as usize));
            assert(after.heap_and_gen_spec(p.block) == Ok::<(usize, usize), HeapError>((after.active0() as usize, 0usize)));
            if live.contains(q.block as int) && q.block != p.block && after.locate(q) is Ok {
                Self::law_blocks_never_overlap(after, live.insert(p.block as int), pn, q);
            }
        }
    }

    /// A successful generation 0 collection of a heap with empty inactive
    /// halves leaves both inactive halves empty.
    pub proof fn law_collect_gen_0_leaves_no_strays(h: Self, used: Seq<bool>, after: Self)
        requires
            h.wf(),
            h.gen0_collected(used, &after, Ok::<(), HeapError>(())),
            h.gen0(1 - h.active0()).next == 0,
            h.gen1(1 - h.active1()).next == 0,
        ensures
            after.gen0(1 - after.active0()).next == 0,
            after.gen1(1 - after.active1()).next == 0,
    {
        lemma_gen0_fold_gen1_halves(used, h.gen0(h.active0()), h.gen0_start(), HEAP_SIZE as nat, MAX_COPIES as nat, MAX_BLOCKS as int);
    }
}

} // verus!
