//! A bump-allocated array of words.
use vstd::prelude::*;

use crate::block_table::BlockInfo;
use crate::pointer::HeapError;

verus! {

/// `s` with the words from `at` on replaced by `part`.
pub open spec fn overwrite(s: Seq<u64>, at: int, part: Seq<u64>) -> Seq<u64> {
    Seq::new(s.len(), |k: int| if at <= k < at + part.len() { part[k - at] } else { s[k] })
}

/// The `len` words of `s` from `start` on.
pub open spec fn words_at(s: Seq<u64>, start: int, len: int) -> Seq<u64> {
    Seq::new(len as nat, |j: int| s[start + j])
}

/// How many words from `start` on can be read before reaching `next`, at most `size`.
pub open spec fn readable(start: int, size: int, next: int) -> int {
    if start + size <= next {
        size
    } else if start >= next {
        0
    } else {
        next - start
    }
}

/// What copying the block `info` out of a heap with `src_words` allocated up to
/// `src_next` into a heap with `dest_words` allocated up to `dest_next`, of
/// `limit` words, gives: the result, and the destination's words and next free address.
pub open spec fn copy_outcome(
    src_words: Seq<u64>,
    src_next: nat,
    info: BlockInfo,
    dest_words: Seq<u64>,
    dest_next: nat,
    limit: nat,
) -> (Result<BlockInfo, HeapError>, Seq<u64>, nat) {
    if info.size == 0 {
        (Err(HeapError::ZeroSizeRequest), dest_words, dest_next)
    } else if dest_next + info.size > limit {
        (Err(HeapError::OutOfMemory), dest_words, dest_next)
    } else {
        let k = readable(info.start as int, info.size as int, src_next as int);
        let words = overwrite(dest_words, dest_next as int, words_at(src_words, info.start as int, k));
        let next = (dest_next + info.size) as nat;
        if k == info.size {
            (
                Ok(BlockInfo {
                    start: dest_next as usize,
                    size: info.size,
                    num_times_copied: (info.num_times_copied + 1) as usize,
                }),
                words,
                next,
            )
        } else {
            (Err(HeapError::IllegalAddress((info.start + k) as usize, src_next as usize)), words, next)
        }
    }
}

/// An array of `HEAP_SIZE` words, allocated from the bottom up.
#[derive(Clone, Debug)]
pub struct RamHeap<const HEAP_SIZE: usize> {
    heap: Vec<u64>,
    next_address: usize,
}

impl<const HEAP_SIZE: usize> RamHeap<HEAP_SIZE> {
    /// The words of the heap.
    pub closed spec fn words(&self) -> Seq<u64> {
        self.heap@
    }

    /// The first address that is not allocated.
    pub closed spec fn next(&self) -> nat {
        self.next_address as nat
    }

    pub open spec fn wf(&self) -> bool {
        &&& self.words().len() == HEAP_SIZE
        &&& self.next() <= HEAP_SIZE
    }

    pub fn new() -> (h: Self)
        ensures
            h.words() == Seq::new(HEAP_SIZE as nat, |i: int| 0u64),
            h.next() == 0,
            h.wf(),
    {
        let mut heap: Vec<u64> = Vec::new();
        let mut i: usize = 0;
        while i < HEAP_SIZE
            invariant
                i <= HEAP_SIZE,
                heap@ == Seq::new(i as nat, |k: int| 0u64),
            decreases HEAP_SIZE - i,
        {
            heap.push(0);
            i = i + 1;
            assert(heap@ =~= Seq::new(i as nat, |k: int| 0u64));
        }
        RamHeap { heap, next_address: 0 }
    }

    /// The first address that is not allocated.
    pub fn next_address(&self) -> (n: usize)
        ensures
            n == self.next(),
    {
        self.next_address
    }

    /// Frees every word at once.
    pub fn clear(&mut self)
        ensures
            final(self).words() == old(self).words(),
            final(self).next() == 0,
    {
        self.next_address = 0;
    }

    /// Sets every word to zero, allocated or not.
    pub fn zero_fill(&mut self)
        ensures
            final(self).words() == Seq::new(old(self).words().len(), |i: int| 0u64),
            final(self).next() == old(self).next(),
    {
        let mut i: usize = 0;
        while i < self.heap.len()
            invariant
                i <= self.heap@.len(),
                self.heap@.len() == old(self).heap@.len(),
                self.next_address == old(self).next_address,
                forall|k: int| 0 <= k < i ==> self.heap@[k] == 0u64,
            decreases self.heap@.len() - i,
        {
            self.heap.set(i, 0);
            i = i + 1;
        }
        assert(self.heap@ =~= Seq::new(old(self).words().len(), |i: int| 0u64));
    }

    /// The word at `address`, which must be allocated.
    pub fn load(&self, address: usize) -> (r: Result<u64, HeapError>)
        requires
            self.wf(),
        ensures
            r == (if address < self.next() {
                Ok(self.words()[address as int])
            } else {
                Err(HeapError::IllegalAddress(address, self.next() as usize))
            }),
    {
        if address >= self.next_address {
            return Err(HeapError::IllegalAddress(address, self.next_address));
        }
        Ok(self.heap[address])
    }

    /// Writes `value` at `address`, which must be allocated.
    pub fn store(&mut self, address: usize, value: u64) -> (r: Result<(), HeapError>)
        requires
            old(self).wf(),
        ensures
            final(self).next() == old(self).next(),
            address < old(self).next() ==> r == Ok::<(), HeapError>(()) && final(self).words()
                == old(self).words().update(address as int, value),
            address >= old(self).next() ==> r == Err::<(), HeapError>(
                HeapError::IllegalAddress(address, old(self).next() as usize),
            ) && final(self).words() == old(self).words(),
    {
        if address >= self.next_address {
            return Err(HeapError::IllegalAddress(address, self.next_address));
        }
        self.heap.set(address, value);
        Ok(())
    }

    /// Allocates `num_words` words and returns the address of the first.
    pub fn malloc(&mut self, num_words: usize) -> (r: Result<usize, HeapError>)
        requires
            old(self).wf(),
        ensures
            final(self).words() == old(self).words(),
            num_words == 0 ==> r == Err::<usize, HeapError>(HeapError::ZeroSizeRequest)
                && final(self).next() == old(self).next(),
            num_words > 0 && old(self).next() + num_words > HEAP_SIZE ==> r == Err::<usize, HeapError>(HeapError::OutOfMemory)
                && final(self).next() == old(self).next(),
            num_words > 0 && old(self).next() + num_words <= HEAP_SIZE ==> r == Ok::<usize, HeapError>(old(self).next() as usize)
                && final(self).next() == old(self).next() + num_words,
    {
        if num_words == 0 {
            return Err(HeapError::ZeroSizeRequest);
        }
        let start = self.next_address;
        if num_words > HEAP_SIZE - start {
            return Err(HeapError::OutOfMemory);
        }
        let end = start + num_words;
        self.next_address = end;
        Ok(start)
    }

    /// Copies the block `src` of this heap into newly allocated words of `dest`.
    pub fn copy(&self, src: &BlockInfo, dest: &mut Self) -> (r: Result<BlockInfo, HeapError>)
        requires
            self.wf(),
            old(dest).wf(),
            src.num_times_copied < usize::MAX,
        ensures
            (r, final(dest).words(), final(dest).next()) == copy_outcome(
                self.words(),
                self.next(),
                *src,
                old(dest).words(),
                old(dest).next(),
                HEAP_SIZE as nat,
            ),
            r is Ok <==> (0 < src.size && old(dest).next() + src.size <= HEAP_SIZE && src.start + src.size <= self.next()),
            r is Ok ==> {
                &&& r == Ok::<BlockInfo, HeapError>(BlockInfo {
                    start: old(dest).next() as usize,
                    size: src.size,
                    num_times_copied: (src.num_times_copied + 1) as usize,
                })
                &&& final(dest).next() == old(dest).next() + src.size
                &&& words_at(final(dest).words(), old(dest).next() as int, src.size as int)
                    == words_at(self.words(), src.start as int, src.size as int)
                &&& forall|a: int| 0 <= a < old(dest).next() ==> #[trigger] final(dest).words()[a] == old(dest).words()[a]
            },
    {
        let new_start = dest.malloc(src.size)?;
        let ghost dest0 = dest.words();
        let ghost k = readable(src.start as int, src.size as int, self.next() as int);
        let mut i: usize = 0;
        assert(dest.words() =~= overwrite(dest0, new_start as int, words_at(self.words(), src.start as int, 0)));
        while i < src.size
            invariant
                self.wf(),
                dest.wf(),
                0 < src.size,
                new_start as int + src.size == dest.next(),
                i <= src.size,
                i <= k,
                k == readable(src.start as int, src.size as int, self.next() as int),
                dest.words() == overwrite(dest0, new_start as int, words_at(self.words(), src.start as int, i as int)),
                dest0 == old(dest).words(),
                new_start == old(dest).next(),
                old(dest).next() + src.size <= HEAP_SIZE,
            decreases src.size - i,
        {
            assert(src.start + i <= usize::MAX) by {
                if i > 0 {
                    assert(src.start + i <= self.next());
                }
            }
            let value = match self.load(src.start + i) {
                Ok(v) => v,
                Err(e) => {
                    assert(i == k);
                    return Err(e);
                },
            };
            let stored = dest.store(new_start + i, value);
            assert(stored is Ok);
            i = i + 1;
            assert(dest.words() =~= overwrite(dest0, new_start as int, words_at(self.words(), src.start as int, i as int)));
        }
        Ok(BlockInfo { start: new_start, size: src.size, num_times_copied: src.num_times_copied + 1 })
    }
}

} // verus!
