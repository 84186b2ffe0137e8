//! The table that maps block numbers to where their blocks lie in a heap.
use vstd::prelude::*;

use crate::pointer::{HeapError, Pointer};

verus! {

/// Where an allocated block lies, how many words it holds, and how many
/// times a collector has copied it.
#[derive(Copy, Clone, Debug, PartialEq, Eq, Structural)]
pub struct BlockInfo {
    pub start: usize,
    pub size: usize,
    pub num_times_copied: usize,
}

/// The lowest free block number below `n`.
pub open spec fn first_free_below(t: Seq<Option<BlockInfo>>, n: int) -> Option<usize>
    decreases n,
{
    if n <= 0 {
        None
    } else {
        match first_free_below(t, n - 1) {
            Some(i) => Some(i),
            None => if t[n - 1] is None {
                Some((n - 1) as usize)
            } else {
                None
            },
        }
    }
}

/// The lowest free block number of the table, if any block is free.
pub open spec fn first_free(t: Seq<Option<BlockInfo>>) -> Option<usize> {
    first_free_below(t, t.len() as int)
}

/// The allocated block numbers below `n`, in increasing order.
pub open spec fn in_use_below(t: Seq<Option<BlockInfo>>, n: int) -> Seq<usize>
    decreases n,
{
    if n <= 0 {
        Seq::empty()
    } else if t[n - 1] is Some {
        in_use_below(t, n - 1).push((n - 1) as usize)
    } else {
        in_use_below(t, n - 1)
    }
}

/// The allocated block numbers, in increasing order.
pub open spec fn in_use(t: Seq<Option<BlockInfo>>) -> Seq<usize> {
    in_use_below(t, t.len() as int)
}

/// Each allocated block number, with the number of times its block was copied.
pub open spec fn copies_in_use(t: Seq<Option<BlockInfo>>) -> Seq<(usize, usize)> {
    in_use(t).map_values(|b: usize| (b, t[b as int]->Some_0.num_times_copied))
}

/// The address that `p` designates, or the error that explains why it designates none.
pub open spec fn address_of(t: Seq<Option<BlockInfo>>, p: Pointer) -> Result<usize, HeapError> {
    if p.block >= t.len() {
        Err(HeapError::IllegalBlock(p.block, (t.len() - 1) as usize))
    } else {
        match t[p.block as int] {
            None => Err(HeapError::UnallocatedBlock(p.block)),
            Some(info) => if p.offset >= info.size {
                Err(HeapError::OffsetTooBig(p.offset, p.block, info.size))
            } else if p.size != info.size {
                Err(HeapError::MisalignedPointer(p.size, info.size, p.block))
            } else {
                Ok((info.start + p.offset) as usize)
            },
        }
    }
}

/// The pointer to the first word of block `b`, when `b` is allocated.
pub open spec fn block_ptr(t: Seq<Option<BlockInfo>>, b: usize) -> Option<Pointer> {
    if b < t.len() {
        match t[b as int] {
            Some(info) => Some(Pointer { block: b, offset: 0, size: info.size }),
            None => None,
        }
    } else {
        None
    }
}

/// Every allocated block holds at least one word and ends at or below `limit`.
pub open spec fn blocks_within(t: Seq<Option<BlockInfo>>, limit: int) -> bool {
    forall|i: int|
        0 <= i < t.len() && #[trigger] t[i] is Some ==> {
            &&& 1 <= t[i]->Some_0.size
            &&& t[i]->Some_0.start + t[i]->Some_0.size <= limit
        }
}

/// No two allocated blocks share a word.
pub open spec fn blocks_disjoint(t: Seq<Option<BlockInfo>>) -> bool {
    forall|i: int, j: int|
        0 <= i < t.len() && 0 <= j < t.len() && i != j && #[trigger] t[i] is Some
            && #[trigger] t[j] is Some ==> {
            ||| t[i]->Some_0.start + t[i]->Some_0.size <= t[j]->Some_0.start
            ||| t[j]->Some_0.start + t[j]->Some_0.size <= t[i]->Some_0.start
        }
}

/// The number of words of the allocated blocks below `n`.
pub open spec fn words_below(t: Seq<Option<BlockInfo>>, n: int) -> int
    decreases n,
{
    if n <= 0 {
        0
    } else {
        words_below(t, n - 1) + match t[n - 1] {
            Some(b) => b.size as int,
            None => 0,
        }
    }
}

/// The number of words of all allocated blocks.
pub open spec fn words_allocated(t: Seq<Option<BlockInfo>>) -> int {
    words_below(t, t.len() as int)
}

pub proof fn lemma_first_free_below(t: Seq<Option<BlockInfo>>, n: int)
    requires
        0 <= n <= t.len(),
        t.len() <= usize::MAX,
    ensures
        first_free_below(t, n) matches Some(i) ==> {
            &&& i < n
            &&& t[i as int] is None
            &&& forall|j: int| 0 <= j < i ==> #[trigger] t[j] is Some
        },
        first_free_below(t, n) is None ==> forall|j: int| 0 <= j < n ==> #[trigger] t[j] is Some,
    decreases n,
{
    if n > 0 {
        lemma_first_free_below(t, n - 1);
    }
}

pub proof fn lemma_first_free(t: Seq<Option<BlockInfo>>)
    requires
        t.len() <= usize::MAX,
    ensures
        first_free(t) matches Some(i) ==> {
            &&& i < t.len()
            &&& t[i as int] is None
            &&& forall|j: int| 0 <= j < i ==> #[trigger] t[j] is Some
        },
        first_free(t) is None ==> forall|j: int| 0 <= j < t.len() ==> #[trigger] t[j] is Some,
{
    lemma_first_free_below(t, t.len() as int);
}

pub proof fn lemma_words_below_nonneg(t: Seq<Option<BlockInfo>>, n: int)
    ensures
        0 <= words_below(t, n),
    decreases n,
{
    if n > 0 {
        lemma_words_below_nonneg(t, n - 1);
    }
}

/// Filling a free entry adds the new block's words to the total.
pub proof fn lemma_words_below_fill(t: Seq<Option<BlockInfo>>, b: int, info: BlockInfo, n: int)
    requires
        0 <= b < t.len(),
        t[b] is None,
        0 <= n <= t.len(),
    ensures
        words_below(t.update(b, Some(info)), n) == words_below(t, n) + if b < n {
            info.size as int
        } else {
            0
        },
    decreases n,
{
    if n > 0 {
        lemma_words_below_fill(t, b, info, n - 1);
    }
}

/// For each block number, where its block lies, if it is allocated.
#[derive(Clone, Debug)]
pub struct BlockTable<const MAX_BLOCKS: usize> {
    pub block_info: Vec<Option<BlockInfo>>,
}

impl<const MAX_BLOCKS: usize> View for BlockTable<MAX_BLOCKS> {
    type V = Seq<Option<BlockInfo>>;

    open spec fn view(&self) -> Seq<Option<BlockInfo>> {
        self.block_info@
    }
}

impl<const MAX_BLOCKS: usize> BlockTable<MAX_BLOCKS> {
    /// One entry per block number, and no block that runs past the largest address.
    pub open spec fn wf(&self) -> bool {
        &&& self@.len() == MAX_BLOCKS
        &&& forall|i: int|
            0 <= i < self@.len() && #[trigger] self@[i] is Some ==> self@[i]->Some_0.start
                + self@[i]->Some_0.size <= usize::MAX
    }

    pub fn new() -> (t: Self)
        ensures
            t@ == Seq::new(MAX_BLOCKS as nat, |i: int| None::<BlockInfo>),
            t.wf(),
    {
        let mut block_info: Vec<Option<BlockInfo>> = Vec::new();
        let mut i: usize = 0;
        while i < MAX_BLOCKS
            invariant
                i <= MAX_BLOCKS,
                block_info@ == Seq::new(i as nat, |k: int| None::<BlockInfo>),
            decreases MAX_BLOCKS - i,
        {
            block_info.push(None);
            i = i + 1;
            assert(block_info@ =~= Seq::new(i as nat, |k: int| None::<BlockInfo>));
        }
        BlockTable { block_info }
    }

    /// An entry by entry copy of the table.
    pub fn duplicate(&self) -> (t: Self)
        ensures
            t@ == self@,
    {
        let mut block_info: Vec<Option<BlockInfo>> = Vec::new();
        let mut i: usize = 0;
        while i < self.block_info.len()
            invariant
                i <= self@.len(),
                block_info@ == self@.take(i as int),
            decreases self@.len() - i,
        {
            block_info.push(self.block_info[i]);
            i = i + 1;
            assert(block_info@ =~= self@.take(i as int));
        }
        assert(block_info@ =~= self@);
        BlockTable { block_info }
    }

    pub fn get(&self, index: usize) -> (r: Option<BlockInfo>)
        requires
            index < self@.len(),
        ensures
            r == self@[index as int],
    {
        self.block_info[index]
    }

    pub fn set(&mut self, index: usize, entry: Option<BlockInfo>)
        requires
            index < old(self)@.len(),
        ensures
            final(self)@ == old(self)@.update(index as int, entry),
    {
        self.block_info.set(index, entry);
    }

    /// The lowest free block number.
    pub fn available_block(&self) -> (r: Option<usize>)
        ensures
            r == first_free(self@),
    {
        let mut i: usize = 0;
        while i < self.block_info.len()
            invariant
                i <= self@.len(),
                first_free_below(self@, i as int) is None,
            decreases self@.len() - i,
        {
            if self.block_info[i].is_none() {
                proof {
                    lemma_first_free_below_fixed(self@, i as int + 1, self@.len() as int);
                }
                return Some(i);
            }
            i = i + 1;
        }
        None
    }

    /// The allocated block numbers, in increasing order.
    pub fn blocks_in_use(&self) -> (r: Vec<usize>)
        ensures
            r@ == in_use(self@),
    {
        let mut r: Vec<usize> = Vec::new();
        let mut i: usize = 0;
        while i < self.block_info.len()
            invariant
                i <= self@.len(),
                r@ == in_use_below(self@, i as int),
            decreases self@.len() - i,
        {
            if self.block_info[i].is_some() {
                r.push(i);
            }
            i = i + 1;
        }
        r
    }

    /// Each allocated block number with the number of times its block was copied.
    pub fn blocks_num_copies(&self) -> (r: Vec<(usize, usize)>)
        ensures
            r@ == copies_in_use(self@),
    {
        let used = self.blocks_in_use();
        let mut r: Vec<(usize, usize)> = Vec::new();
        let mut k: usize = 0;
        let n = self.block_info.len();
        proof {
            lemma_in_use_below(self@, self@.len() as int);
        }
        while k < used.len()
            invariant
                k <= used@.len(),
                used@ == in_use(self@),
                forall|j: int| 0 <= j < used@.len() ==> #[trigger] used@[j] < self@.len() && self@[used@[j] as int] is Some,
                r@ == copies_in_use(self@).take(k as int),
            decreases used@.len() - k,
        {
            let b = used[k];
            let info = self.block_info[b].unwrap();
            r.push((b, info.num_times_copied));
            k = k + 1;
            assert(r@ =~= copies_in_use(self@).take(k as int));
        }
        assert(r@ =~= copies_in_use(self@));
        r
    }

    /// The address that `p` designates.
    pub fn address(&self, p: Pointer) -> (r: Result<usize, HeapError>)
        requires
            self.wf(),
            0 < MAX_BLOCKS,
        ensures
            r == address_of(self@, p),
    {
        let block_num = p.block_num();
        let offset = p.offset();
        if block_num >= MAX_BLOCKS {
            return Err(HeapError::IllegalBlock(block_num, MAX_BLOCKS - 1));
        }
        match self.block_info[block_num] {
            None => Err(HeapError::UnallocatedBlock(block_num)),
            Some(info) => {
                if offset >= info.size {
                    return Err(HeapError::OffsetTooBig(offset, block_num, info.size));
                }
                if p.len() != info.size {
                    return Err(HeapError::MisalignedPointer(p.len(), info.size, block_num));
                }
                Ok(info.start + offset)
            },
        }
    }

    /// The pointer to the first word of block `block`, when it is allocated.
    pub fn allocated_block_ptr(&self, block: usize) -> (r: Option<Pointer>)
        ensures
            r == block_ptr(self@, block),
    {
        if block < self.block_info.len() {
            match self.block_info[block] {
                Some(info) => Some(Pointer::new(block, info.size)),
                None => None,
            }
        } else {
            None
        }
    }
}

/// Once a free entry is found below `n`, looking further finds the same one.
pub proof fn lemma_first_free_below_fixed(t: Seq<Option<BlockInfo>>, n: int, m: int)
    requires
        0 < n <= m,
        first_free_below(t, n - 1) is None,
        t[n - 1] is None,
    ensures
        first_free_below(t, m) == Some((n - 1) as usize),
    decreases m,
{
    if m > n {
        lemma_first_free_below_fixed(t, n, m - 1);
    }
}

/// The listed block numbers are allocated, in bounds and increasing.
pub proof fn lemma_in_use_below(t: Seq<Option<BlockInfo>>, n: int)
    requires
        0 <= n <= t.len(),
        t.len() <= usize::MAX,
    ensures
        forall|j: int|
            0 <= j < in_use_below(t, n).len() ==> #[trigger] in_use_below(t, n)[j] < n
                && t[in_use_below(t, n)[j] as int] is Some,
        forall|j: int, k: int|
            0 <= j < k < in_use_below(t, n).len() ==> #[trigger] in_use_below(t, n)[j]
                < #[trigger] in_use_below(t, n)[k],
        in_use_below(t, n).len() <= n,
    decreases n,
{
    if n > 0 {
        lemma_in_use_below(t, n - 1);
        let prev = in_use_below(t, n - 1);
        let cur = in_use_below(t, n);
        if t[n - 1] is Some {
            assert(cur == prev.push((n - 1) as usize));
            assert forall|j: int| 0 <= j < cur.len() implies #[trigger] cur[j] < n && t[cur[j] as int] is Some by {
                if j < prev.len() {
                    assert(cur[j] == prev[j]);
                }
            }
            assert forall|j: int, k: int| 0 <= j < k < cur.len() implies #[trigger] cur[j] < #[trigger] cur[k] by {
                assert(cur[j] == prev[j]);
                if k < prev.len() {
                    assert(cur[k] == prev[k]);
                }
            }
        }
    }
}

} // verus!
