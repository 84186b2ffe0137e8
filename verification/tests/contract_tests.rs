use gc_heap::block_table::BlockTable;
use gc_heap::{
    independent_elements_from, BlockInfo, CopyingHeap, GenerationalHeap, HeapError, OnceAndDoneHeap, Pointer, RamHeap,
    Tracer,
};

/// Reports a fixed set of blocks as reachable.
struct Reach(Vec<usize>);

impl Tracer for Reach {
    fn trace(&self, blocks_used: &mut [bool]) {
        for b in self.0.iter() {
            blocks_used[*b] = true;
        }
    }
}

fn nothing() -> Reach {
    Reach(Vec::new())
}

#[test]
fn pointer_iter_lists_every_later_word() {
    let p = Pointer::new(3, 4);
    assert_eq!(p.offset(), 0);
    assert_eq!(p.len(), 4);
    assert_eq!(p.block_num(), 3);
    let all = p.iter();
    assert_eq!(all.len(), 4);
    assert_eq!(all[2], Pointer { block: 3, offset: 2, size: 4 });
    let tail = Pointer { block: 3, offset: 3, size: 4 }.iter();
    assert_eq!(tail, vec![Pointer { block: 3, offset: 3, size: 4 }]);
    assert!(Pointer { block: 3, offset: 5, size: 4 }.iter().is_empty());
}

#[test]
fn independent_elements_are_distinct() {
    let mut v = [1, 2, 3];
    {
        let (a, b) = independent_elements_from(2, 0, &mut v).unwrap();
        *a = 30;
        *b = 10;
    }
    assert_eq!(v, [10, 2, 30]);
    assert!(independent_elements_from(1, 1, &mut v).is_none());
    assert!(independent_elements_from(0, 3, &mut v).is_none());
}

#[test]
fn block_table_lookups() {
    let mut t = BlockTable::<4>::new();
    assert_eq!(t.available_block(), Some(0));
    t.set(0, Some(BlockInfo { start: 0, size: 2, num_times_copied: 1 }));
    t.set(2, Some(BlockInfo { start: 2, size: 3, num_times_copied: 0 }));
    assert_eq!(t.available_block(), Some(1));
    assert_eq!(t.blocks_in_use(), vec![0, 2]);
    assert_eq!(t.blocks_num_copies(), vec![(0, 1), (2, 0)]);
    assert_eq!(t.address(Pointer { block: 2, offset: 1, size: 3 }), Ok(3));
    assert_eq!(t.address(Pointer { block: 4, offset: 0, size: 1 }), Err(HeapError::IllegalBlock(4, 3)));
    assert_eq!(t.address(Pointer { block: 1, offset: 0, size: 1 }), Err(HeapError::UnallocatedBlock(1)));
    assert_eq!(t.address(Pointer { block: 2, offset: 3, size: 3 }), Err(HeapError::OffsetTooBig(3, 2, 3)));
    assert_eq!(t.address(Pointer { block: 2, offset: 0, size: 5 }), Err(HeapError::MisalignedPointer(5, 3, 2)));
    assert_eq!(t.allocated_block_ptr(2), Some(Pointer::new(2, 3)));
    assert_eq!(t.allocated_block_ptr(1), None);
    assert_eq!(t.allocated_block_ptr(9), None);
    let copy = t.duplicate();
    assert_eq!(copy.get(2), Some(BlockInfo { start: 2, size: 3, num_times_copied: 0 }));
}

#[test]
fn ram_heap_bump_allocation() {
    let mut h = RamHeap::<8>::new();
    assert_eq!(h.malloc(0), Err(HeapError::ZeroSizeRequest));
    assert_eq!(h.malloc(9), Err(HeapError::OutOfMemory));
    assert_eq!(h.malloc(3), Ok(0));
    assert_eq!(h.malloc(5), Ok(3));
    assert_eq!(h.next_address(), 8);
    assert_eq!(h.malloc(1), Err(HeapError::OutOfMemory));
    assert_eq!(h.store(8, 1), Err(HeapError::IllegalAddress(8, 8)));
    assert_eq!(h.store(2, 42), Ok(()));
    assert_eq!(h.load(2), Ok(42));
    h.clear();
    assert_eq!(h.load(2), Err(HeapError::IllegalAddress(2, 0)));
}

#[test]
fn ram_heap_copy_moves_a_block() {
    let mut src = RamHeap::<8>::new();
    let mut dest = RamHeap::<8>::new();
    src.malloc(4).unwrap();
    for a in 0..4 {
        src.store(a, 10 + a as u64).unwrap();
    }
    dest.malloc(1).unwrap();
    let moved = src.copy(&BlockInfo { start: 1, size: 3, num_times_copied: 2 }, &mut dest).unwrap();
    assert_eq!(moved, BlockInfo { start: 1, size: 3, num_times_copied: 3 });
    assert_eq!(dest.load(1), Ok(11));
    assert_eq!(dest.load(3), Ok(13));
    assert_eq!(dest.next_address(), 4);
    // A block that runs past the source's allocated words stops at the first unreadable one.
    let failed = src.copy(&BlockInfo { start: 2, size: 3, num_times_copied: 0 }, &mut dest);
    assert_eq!(failed, Err(HeapError::IllegalAddress(4, 4)));
    assert_eq!(dest.next_address(), 7);
    assert_eq!(dest.load(4), Ok(12));
    assert_eq!(src.copy(&BlockInfo { start: 0, size: 2, num_times_copied: 0 }, &mut dest), Err(HeapError::OutOfMemory));
    assert_eq!(src.copy(&BlockInfo { start: 0, size: 0, num_times_copied: 0 }, &mut dest), Err(HeapError::ZeroSizeRequest));
}

#[test]
fn once_and_done_never_reuses_words() {
    let mut h = OnceAndDoneHeap::<10, 3>::new();
    let t = nothing();
    let a = h.malloc(4, &t).unwrap();
    assert_eq!(a, Pointer::new(0, 4));
    assert_eq!(h.address(Pointer { block: 0, offset: 3, size: 4 }), Ok(3));
    let b = h.malloc(4, &t).unwrap();
    assert_eq!(h.address(b), Ok(4));
    assert_eq!(h.malloc(3, &t), Err(HeapError::OutOfMemory));
    assert_eq!(h.malloc(0, &t), Err(HeapError::ZeroSizeRequest));
    h.malloc(2, &t).unwrap();
    assert_eq!(h.malloc(1, &t), Err(HeapError::OutOfBlocks));
    assert_eq!(h.num_allocated_blocks(), 3);
    assert!(h.assert_no_strays());
}

#[test]
fn store_then_load_reads_back() {
    let mut h = OnceAndDoneHeap::<10, 3>::new();
    let t = nothing();
    let a = h.malloc(2, &t).unwrap();
    let b = h.malloc(2, &t).unwrap();
    let a1 = Pointer { block: a.block_num(), offset: 1, size: 2 };
    assert_eq!(h.load(a1), Ok(0));
    h.store(a1, 5).unwrap();
    h.store(b, 6).unwrap();
    assert_eq!(h.load(a1), Ok(5));
    assert_eq!(h.load(a), Ok(0));
    assert_eq!(h.load(b), Ok(6));
    assert_eq!(h.store(Pointer::new(2, 1), 1), Err(HeapError::UnallocatedBlock(2)));
}

#[test]
fn copying_collection_keeps_reachable_and_frees_the_rest() {
    let mut h = CopyingHeap::<8, 3>::new();
    let t = nothing();
    let a = h.malloc(3, &t).unwrap();
    let b = h.malloc(2, &t).unwrap();
    let c = h.malloc(2, &t).unwrap();
    for (i, p) in c.iter().into_iter().enumerate() {
        h.store(p, 70 + i as u64).unwrap();
    }
    h.store(a, 1).unwrap();
    h.collect_with(&[false, true, true]).unwrap();
    assert!(h.assert_no_strays());
    assert_eq!(h.load(a), Err(HeapError::UnallocatedBlock(0)));
    assert_eq!(h.load(b), Ok(0));
    assert_eq!(h.load(Pointer { block: 2, offset: 1, size: 2 }), Ok(71));
    // Blocks are packed in block order and each was copied once.
    assert_eq!(h.address(b), Ok(0));
    assert_eq!(h.address(c), Ok(2));
    assert_eq!(h.blocks_num_copies(), vec![(1, 1), (2, 1)]);
    assert_eq!(h.blocks_in_use(), vec![1, 2]);
}

#[test]
fn copying_malloc_collects_when_full() {
    let mut h = CopyingHeap::<8, 3>::new();
    let keep = Reach(vec![1]);
    h.malloc(4, &keep).unwrap();
    let b = h.malloc(4, &keep).unwrap();
    h.store(b, 9).unwrap();
    // No room: block 0 is unreachable, so it is freed and block 1 moves to the bottom.
    let c = h.malloc(3, &keep).unwrap();
    assert_eq!(c, Pointer::new(2, 3));
    assert_eq!(h.address(b), Ok(0));
    assert_eq!(h.load(b), Ok(9));
    assert_eq!(h.address(c), Ok(4));
    assert_eq!(h.load(Pointer { block: 2, offset: 2, size: 3 }), Ok(0));
    assert_eq!(h.allocated_block_ptr(0), None);
    assert!(h.assert_no_strays());
    let all = Reach(vec![1, 2]);
    assert_eq!(h.malloc(2, &all), Err(HeapError::OutOfMemory));
}

#[test]
fn copying_reused_words_read_as_zero() {
    let mut h = CopyingHeap::<4, 2>::new();
    let t = nothing();
    let a = h.malloc(4, &t).unwrap();
    for p in a.iter() {
        h.store(p, 5).unwrap();
    }
    let b = h.malloc(4, &t).unwrap();
    for p in b.iter() {
        assert_eq!(h.load(p), Ok(0));
    }
}

#[test]
fn generational_promotes_after_max_copies() {
    let mut h = GenerationalHeap::<6, 4, 1>::new();
    let keep = Reach(vec![0]);
    let a = h.malloc(2, &keep).unwrap();
    h.store(a, 7).unwrap();
    h.collect_gen_0(&keep).unwrap();
    assert_eq!(h.blocks_num_copies(), vec![(0, 1)]);
    assert_eq!(h.load(a), Ok(7));
    h.collect_gen_0(&keep).unwrap();
    // Copied twice: it now lives in generation 1 and later collections leave it there.
    assert_eq!(h.blocks_num_copies(), vec![(0, 2)]);
    assert_eq!(h.load(a), Ok(7));
    h.collect_gen_0(&keep).unwrap();
    assert_eq!(h.blocks_num_copies(), vec![(0, 2)]);
    assert_eq!(h.load(a), Ok(7));
    assert!(h.assert_no_strays());
}

#[test]
fn generational_collects_generation_1_when_full() {
    let mut h = GenerationalHeap::<4, 4, 0>::new();
    let both = Reach(vec![0, 1]);
    let a = h.malloc(2, &both).unwrap();
    let b = h.malloc(2, &both).unwrap();
    h.store(a, 1).unwrap();
    h.store(b, 2).unwrap();
    // Both blocks move to generation 1, which fills it.
    h.collect_gen_0(&both).unwrap();
    assert_eq!(h.blocks_num_copies(), vec![(0, 1), (1, 1)]);
    let c = h.malloc(2, &both).unwrap();
    h.store(c, 3).unwrap();
    // Block 0 is no longer reachable: generation 1 is collected to make room
    // for block 2, and only block 1 is copied there; block 0 keeps its entry.
    let keep = Reach(vec![1, 2]);
    h.collect_gen_0(&keep).unwrap();
    assert_eq!(h.load(b), Ok(2));
    assert_eq!(h.load(c), Ok(3));
    assert_eq!(h.address(b), Ok(0));
    assert_eq!(h.address(c), Ok(2));
    assert_eq!(h.blocks_num_copies(), vec![(0, 1), (1, 2), (2, 1)]);
    assert!(h.assert_no_strays());
}

#[test]
fn generational_errors() {
    let mut h = GenerationalHeap::<4, 2, 1>::new();
    let t = nothing();
    assert_eq!(h.malloc(0, &t), Err(HeapError::ZeroSizeRequest));
    assert_eq!(h.malloc(5, &t), Err(HeapError::OutOfMemory));
    let a = h.malloc(1, &t).unwrap();
    h.malloc(1, &t).unwrap();
    let both = Reach(vec![0, 1]);
    assert_eq!(h.malloc(1, &both), Err(HeapError::OutOfBlocks));
    assert_eq!(h.load(Pointer::new(2, 1)), Err(HeapError::IllegalBlock(2, 1)));
    assert_eq!(h.store(Pointer { block: 0, offset: 1, size: 1 }, 3), Err(HeapError::OffsetTooBig(1, 0, 1)));
    assert_eq!(h.load(Pointer::new(0, 2)), Err(HeapError::MisalignedPointer(2, 1, 0)));
    assert_eq!(h.address(a), Ok(0));
}

#[test]
fn generational_collection_keeps_unmarked_entries() {
    let mut h = GenerationalHeap::<8, 4, 3>::new();
    let t = nothing();
    h.malloc(1, &t).unwrap();
    let b = h.malloc(1, &t).unwrap();
    h.collect_gen_0(&Reach(vec![1])).unwrap();
    assert_eq!(h.blocks_in_use(), vec![0, 1]);
    assert_eq!(h.blocks_num_copies(), vec![(0, 0), (1, 1)]);
    h.store(b, 7).unwrap();
    assert_eq!(h.load(b), Ok(7));
    // Block number 0 is still taken, so the next block gets number 2.
    let c = h.malloc(1, &t).unwrap();
    assert_eq!(c, Pointer::new(2, 1));
    assert_eq!(h.address(b), Ok(0));
    assert_eq!(h.address(c), Ok(1));
    assert_eq!(h.load(b), Ok(7));
}

#[test]
fn generational_malloc_keeps_marked_blocks() {
    let mut h = GenerationalHeap::<4, 4, 3>::new();
    let keep = Reach(vec![0]);
    let a = h.malloc(2, &keep).unwrap();
    let a1 = Pointer { block: 0, offset: 1, size: 2 };
    h.store(a, 5).unwrap();
    h.store(a1, 6).unwrap();
    h.malloc(2, &keep).unwrap();
    // The active half is full: the collection keeps block 0 and the new
    // block goes after it.
    let c = h.malloc(2, &keep).unwrap();
    assert_eq!(c, Pointer::new(2, 2));
    assert_eq!(h.load(a), Ok(5));
    assert_eq!(h.load(a1), Ok(6));
    assert_eq!(h.address(a), Ok(0));
    assert_eq!(h.address(a1), Ok(1));
    assert_eq!(h.address(c), Ok(2));
    assert_eq!(h.address(Pointer { block: 2, offset: 1, size: 2 }), Ok(3));
    assert_eq!(h.blocks_num_copies(), vec![(0, 1), (1, 0), (2, 0)]);
    assert!(h.assert_no_strays());
}

#[test]
fn generational_collection_1_packs_marked_blocks() {
    let mut src = RamHeap::<8>::new();
    let mut dest = RamHeap::<8>::new();
    assert_eq!(src.malloc(2), Ok(0));
    assert_eq!(src.malloc(3), Ok(2));
    assert_eq!(src.malloc(1), Ok(5));
    for (address, value) in [(0, 10), (1, 11), (2, 20), (3, 21), (4, 22), (5, 30)] {
        src.store(address, value).unwrap();
    }
    assert_eq!(dest.malloc(1), Ok(0));
    dest.store(0, 99).unwrap();
    let mut t = BlockTable::<4>::new();
    t.set(0, Some(BlockInfo { start: 0, size: 2, num_times_copied: 2 }));
    t.set(1, Some(BlockInfo { start: 2, size: 3, num_times_copied: 2 }));
    t.set(3, Some(BlockInfo { start: 5, size: 1, num_times_copied: 3 }));
    let used = [true, false, true, true];
    assert_eq!(GenerationalHeap::<8, 4, 1>::collect_gen_1(&used, &mut t, &mut src, &mut dest), Ok(()));
    assert_eq!(t.get(0), Some(BlockInfo { start: 1, size: 2, num_times_copied: 3 }));
    assert_eq!(t.get(1), Some(BlockInfo { start: 2, size: 3, num_times_copied: 2 }));
    assert_eq!(t.get(2), None);
    assert_eq!(t.get(3), Some(BlockInfo { start: 3, size: 1, num_times_copied: 4 }));
    assert_eq!(dest.next_address(), 4);
    for (address, value) in [(0, 99), (1, 10), (2, 11), (3, 30)] {
        assert_eq!(dest.load(address), Ok(value));
    }
    assert_eq!(src.next_address(), 0);
}
