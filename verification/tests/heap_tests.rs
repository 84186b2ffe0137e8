use std::collections::{HashMap, HashSet, VecDeque};

use gc_heap::{CopyingHeap, GenerationalHeap, HeapError, OnceAndDoneHeap, Pointer, RamHeap, Tracer};

const HEAP_SIZE: usize = 96;
const MAX_BLOCKS: usize = 12;

/// Holds the pointers a program still uses, oldest first, and reports their
/// blocks as reachable.
#[derive(Default)]
struct TestTracer {
    allocations: VecDeque<Pointer>,
}

impl Tracer for TestTracer {
    fn trace(&self, blocks_used: &mut [bool]) {
        for p in self.allocations.iter() {
            blocks_used[p.block_num()] = true;
        }
    }
}

impl TestTracer {
    fn allocate_next<H: GcHeap>(&mut self, request: usize, allocator: &mut H) -> Result<Pointer, HeapError> {
        let p = allocator.malloc(request, self)?;
        self.allocations.push_back(p);
        Ok(p)
    }

    fn deallocate_next(&mut self) -> Option<Pointer> {
        self.allocations.pop_front()
    }

    fn deallocate_next_even(&mut self) -> Option<Pointer> {
        if self.allocations.len() >= 2 {
            let keep = self.allocations.pop_front().unwrap();
            self.allocations.push_back(keep);
            self.allocations.pop_front()
        } else {
            None
        }
    }

    fn deallocate_any_that<F: Fn(&Pointer) -> bool>(&mut self, f: F) {
        self.allocations.retain(|p| !f(p));
    }

    fn len(&self) -> usize {
        self.allocations.len()
    }

    fn total_allocated(&self) -> usize {
        self.allocations.iter().map(|p| p.len()).sum()
    }
}

/// The operations the scenarios below run on every kind of heap.
trait GcHeap {
    fn address(&self, p: Pointer) -> Result<usize, HeapError>;
    fn load(&self, p: Pointer) -> Result<u64, HeapError>;
    fn store(&mut self, p: Pointer, value: u64) -> Result<(), HeapError>;
    fn malloc<T: Tracer>(&mut self, num_words: usize, tracer: &T) -> Result<Pointer, HeapError>;
    fn num_allocated_blocks(&self) -> usize;
    fn allocated_block_ptr(&self, block: usize) -> Option<Pointer>;
    fn blocks_num_copies(&self) -> Vec<(usize, usize)>;
    fn assert_no_strays(&self);
}

impl<const H: usize, const B: usize> GcHeap for OnceAndDoneHeap<H, B> {
    fn address(&self, p: Pointer) -> Result<usize, HeapError> {
        OnceAndDoneHeap::address(self, p)
    }
    fn load(&self, p: Pointer) -> Result<u64, HeapError> {
        OnceAndDoneHeap::load(self, p)
    }
    fn store(&mut self, p: Pointer, value: u64) -> Result<(), HeapError> {
        OnceAndDoneHeap::store(self, p, value)
    }
    fn malloc<T: Tracer>(&mut self, num_words: usize, tracer: &T) -> Result<Pointer, HeapError> {
        OnceAndDoneHeap::malloc(self, num_words, tracer)
    }
    fn num_allocated_blocks(&self) -> usize {
        OnceAndDoneHeap::num_allocated_blocks(self)
    }
    fn allocated_block_ptr(&self, block: usize) -> Option<Pointer> {
        OnceAndDoneHeap::allocated_block_ptr(self, block)
    }
    fn blocks_num_copies(&self) -> Vec<(usize, usize)> {
        OnceAndDoneHeap::blocks_num_copies(self)
    }
    fn assert_no_strays(&self) {
        assert!(OnceAndDoneHeap::assert_no_strays(self));
    }
}

impl<const H: usize, const B: usize> GcHeap for CopyingHeap<H, B> {
    fn address(&self, p: Pointer) -> Result<usize, HeapError> {
        CopyingHeap::address(self, p)
    }
    fn load(&self, p: Pointer) -> Result<u64, HeapError> {
        CopyingHeap::load(self, p)
    }
    fn store(&mut self, p: Pointer, value: u64) -> Result<(), HeapError> {
        CopyingHeap::store(self, p, value)
    }
    fn malloc<T: Tracer>(&mut self, num_words: usize, tracer: &T) -> Result<Pointer, HeapError> {
        CopyingHeap::malloc(self, num_words, tracer)
    }
    fn num_allocated_blocks(&self) -> usize {
        CopyingHeap::num_allocated_blocks(self)
    }
    fn allocated_block_ptr(&self, block: usize) -> Option<Pointer> {
        CopyingHeap::allocated_block_ptr(self, block)
    }
    fn blocks_num_copies(&self) -> Vec<(usize, usize)> {
        CopyingHeap::blocks_num_copies(self)
    }
    fn assert_no_strays(&self) {
        assert!(CopyingHeap::assert_no_strays(self));
    }
}

impl<const H: usize, const B: usize, const C: usize> GcHeap for GenerationalHeap<H, B, C> {
    fn address(&self, p: Pointer) -> Result<usize, HeapError> {
        GenerationalHeap::address(self, p)
    }
    fn load(&self, p: Pointer) -> Result<u64, HeapError> {
        GenerationalHeap::load(self, p)
    }
    fn store(&mut self, p: Pointer, value: u64) -> Result<(), HeapError> {
        GenerationalHeap::store(self, p, value)
    }
    fn malloc<T: Tracer>(&mut self, num_words: usize, tracer: &T) -> Result<Pointer, HeapError> {
        GenerationalHeap::malloc(self, num_words, tracer)
    }
    fn num_allocated_blocks(&self) -> usize {
        GenerationalHeap::num_allocated_blocks(self)
    }
    fn allocated_block_ptr(&self, block: usize) -> Option<Pointer> {
        GenerationalHeap::allocated_block_ptr(self, block)
    }
    fn blocks_num_copies(&self) -> Vec<(usize, usize)> {
        GenerationalHeap::blocks_num_copies(self)
    }
    fn assert_no_strays(&self) {
        assert!(GenerationalHeap::assert_no_strays(self));
    }
}

#[test]
fn basic_allocation_test() {
    let mut blocks2ptrs = HashMap::new();
    let mut allocator = OnceAndDoneHeap::<HEAP_SIZE, MAX_BLOCKS>::new();
    let mut tracer = TestTracer::default();
    test_initial_allocation(&mut allocator, &mut tracer, &mut blocks2ptrs);
}

#[test]
fn out_of_blocks_test() {
    let mut blocks2ptrs = HashMap::new();
    let mut allocator = OnceAndDoneHeap::<HEAP_SIZE, MAX_BLOCKS>::new();
    let mut tracer = TestTracer::default();
    test_initial_allocation(&mut allocator, &mut tracer, &mut blocks2ptrs);
    test_out_of_blocks(&mut allocator, &mut tracer);
}

#[test]
fn test_bad_address_error() {
    let mut allocator = RamHeap::<HEAP_SIZE>::new();
    match allocator.load(HEAP_SIZE + 1) {
        Ok(_) => panic!("This should have been an IllegalAddress error."),
        Err(e) => assert_eq!(e, HeapError::IllegalAddress(HEAP_SIZE + 1, 0)),
    }

    allocator.malloc(96).unwrap();
    match allocator.load(HEAP_SIZE + 1) {
        Ok(_) => panic!("This should have been an IllegalAddress error."),
        Err(e) => assert_eq!(e, HeapError::IllegalAddress(HEAP_SIZE + 1, HEAP_SIZE)),
    }
}

#[test]
fn deallocation_test() {
    let mut blocks2ptrs = HashMap::new();
    let mut allocator = CopyingHeap::<HEAP_SIZE, MAX_BLOCKS>::new();
    let mut tracer = TestTracer::default();
    test_initial_allocation(&mut allocator, &mut tracer, &mut blocks2ptrs);
    allocator.assert_no_strays();
    test_out_of_blocks(&mut allocator, &mut tracer);
    test_remove_half(&mut allocator, &mut tracer, &mut blocks2ptrs);
}

#[test]
fn collection_test() {
    let mut blocks2ptrs = HashMap::new();
    let mut allocator = CopyingHeap::<HEAP_SIZE, MAX_BLOCKS>::new();
    let mut tracer = TestTracer::default();
    test_initial_allocation(&mut allocator, &mut tracer, &mut blocks2ptrs);
    test_out_of_blocks(&mut allocator, &mut tracer);
    test_remove_half(&mut allocator, &mut tracer, &mut blocks2ptrs);
    test_force_collection(&mut allocator, &mut tracer, &mut blocks2ptrs);
    allocator.assert_no_strays();
}

#[test]
fn full_test() {
    let mut blocks2ptrs = HashMap::new();
    let mut allocator = CopyingHeap::<HEAP_SIZE, MAX_BLOCKS>::new();
    let mut tracer = TestTracer::default();
    test_initial_allocation(&mut allocator, &mut tracer, &mut blocks2ptrs);
    test_remove_half(&mut allocator, &mut tracer, &mut blocks2ptrs);
    test_force_collection(&mut allocator, &mut tracer, &mut blocks2ptrs);
    test_fill_ram(&mut allocator, &mut tracer, &mut blocks2ptrs);
    allocator.assert_no_strays();
    test_out_of_ram(&mut allocator, &mut tracer);
}

#[test]
fn test_no_blocks_error() {
    let mut blocks2ptrs = HashMap::new();
    let mut allocator = CopyingHeap::<HEAP_SIZE, MAX_BLOCKS>::new();
    let mut tracer = TestTracer::default();
    test_initial_allocation(&mut allocator, &mut tracer, &mut blocks2ptrs);
    test_out_of_blocks(&mut allocator, &mut tracer);
}

#[test]
fn test_zero_size_error() {
    let mut allocator = CopyingHeap::<HEAP_SIZE, MAX_BLOCKS>::new();
    let tracer = TestTracer::default();
    match allocator.malloc(0, &tracer) {
        Ok(_) => panic!("This should have been a zero-size error"),
        Err(e) => assert_eq!(e, HeapError::ZeroSizeRequest),
    }
}

#[test]
fn test_illegal_block_error() {
    let allocator = CopyingHeap::<HEAP_SIZE, MAX_BLOCKS>::new();
    let bad_ptr = Pointer::new(MAX_BLOCKS, 1);
    match allocator.load(bad_ptr) {
        Ok(_) => panic!("This should have been an error"),
        Err(e) => assert_eq!(e, HeapError::IllegalBlock(MAX_BLOCKS, MAX_BLOCKS - 1)),
    }
}

#[test]
fn test_unallocated_block_error() {
    let mut allocator = CopyingHeap::<HEAP_SIZE, MAX_BLOCKS>::new();
    let tracer = TestTracer::default();
    let p = allocator.malloc(1, &tracer).unwrap();
    let bad_ptr = Pointer::new(p.block_num() + 1, 1);
    match allocator.load(bad_ptr) {
        Ok(_) => panic!("This should have been an UnallocatedBlock error"),
        Err(e) => assert_eq!(e, HeapError::UnallocatedBlock(bad_ptr.block_num())),
    }
}

#[test]
fn test_offset_error() {
    let mut allocator = CopyingHeap::<HEAP_SIZE, MAX_BLOCKS>::new();
    let mut tracer = TestTracer::default();
    let p = tracer.allocate_next(HEAP_SIZE, &mut allocator).unwrap();
    let s = p.iter().into_iter().skip(1).next().unwrap();
    tracer.deallocate_next().unwrap();
    tracer.allocate_next(1, &mut allocator).unwrap();
    let q = tracer.allocate_next(1, &mut allocator).unwrap();
    assert_eq!(p.block_num(), q.block_num());
    match allocator.load(s) {
        Ok(_) => panic!("This should have been an OffsetTooBig error"),
        Err(e) => assert_eq!(e, HeapError::OffsetTooBig(1, p.block_num(), 1)),
    }
}

#[test]
fn test_misaligned_pointer_error() {
    let mut allocator = CopyingHeap::<HEAP_SIZE, MAX_BLOCKS>::new();
    let mut tracer = TestTracer::default();
    let p = tracer.allocate_next(HEAP_SIZE, &mut allocator).unwrap();
    tracer.deallocate_next().unwrap();
    tracer.allocate_next(1, &mut allocator).unwrap();
    let q = tracer.allocate_next(1, &mut allocator).unwrap();
    assert_eq!(p.block_num(), q.block_num());
    match allocator.load(p) {
        Ok(_) => panic!("This should have been a MisalignedPointer error"),
        Err(e) => assert_eq!(e, HeapError::MisalignedPointer(HEAP_SIZE, 1, p.block_num())),
    }
}

fn test_initial_allocation<H: GcHeap>(
    allocator: &mut H,
    tracer: &mut TestTracer,
    blocks2ptrs: &mut HashMap<usize, Pointer>,
) {
    for (block_num, request) in [2, 10, 4, 8, 6, 12, 6, 24, 4, 8, 2, 8].iter().enumerate() {
        println!("block: {block_num} request: {request}");
        let allocated_ptr = tracer.allocate_next(*request, allocator).unwrap();
        assert_eq!(block_num, allocated_ptr.block_num());
        assert_eq!(*request, allocated_ptr.len());
        blocks2ptrs.insert(block_num, allocated_ptr);
        assert_eq!(blocks2ptrs.len(), allocator.num_allocated_blocks());
        ensure_non_overlapping(blocks2ptrs, allocator);
    }
    ensure_all_match(blocks2ptrs, allocator);
    assert_eq!(total_words_allocated(blocks2ptrs), 94);
    test_load_store(blocks2ptrs, allocator);
    assert_eq!(allocator.num_allocated_blocks(), 12);
}

fn test_remove_half<H: GcHeap>(
    allocator: &mut H,
    tracer: &mut TestTracer,
    blocks2ptrs: &mut HashMap<usize, Pointer>,
) {
    for _ in 0..(tracer.len() / 2) {
        let removed = tracer.deallocate_next_even().unwrap();
        assert!(blocks2ptrs.contains_key(&removed.block_num()));
        blocks2ptrs.remove(&removed.block_num());
    }
    test_load_store(blocks2ptrs, allocator);
    assert_eq!(allocator.num_allocated_blocks(), 12);
}

fn test_force_collection<H: GcHeap>(
    allocator: &mut H,
    tracer: &mut TestTracer,
    blocks2ptrs: &mut HashMap<usize, Pointer>,
) {
    let ptr = tracer.allocate_next(4, allocator).unwrap();
    assert!(!blocks2ptrs.contains_key(&ptr.block_num()));
    blocks2ptrs.insert(ptr.block_num(), ptr);
    assert_eq!(allocator.num_allocated_blocks(), 7);
    assert_eq!(tracer.len(), allocator.num_allocated_blocks());
}

fn test_fill_ram<H: GcHeap>(allocator: &mut H, tracer: &mut TestTracer, blocks2ptrs: &mut HashMap<usize, Pointer>) {
    let ptr = tracer.allocate_next(68, allocator).unwrap();
    assert!(!blocks2ptrs.contains_key(&ptr.block_num()));
    blocks2ptrs.insert(ptr.block_num(), ptr);
    assert_eq!(allocator.num_allocated_blocks(), 8);
    assert_eq!(tracer.total_allocated(), 96);
}

fn test_out_of_ram<H: GcHeap>(allocator: &mut H, tracer: &mut TestTracer) {
    match tracer.allocate_next(1, allocator) {
        Ok(_) => panic!("Should be an out of memory error!"),
        Err(e) => assert_eq!(e, HeapError::OutOfMemory),
    }
}

fn ensure_all_match<H: GcHeap>(blocks2ptrs: &HashMap<usize, Pointer>, allocator: &H) {
    for (block, ptr) in blocks2ptrs.iter() {
        assert_eq!(allocator.allocated_block_ptr(*block).unwrap(), *ptr);
    }
}

fn ensure_non_overlapping<H: GcHeap>(blocks2ptrs: &HashMap<usize, Pointer>, allocator: &H) {
    let mut memory_locations = (0..HEAP_SIZE).collect::<HashSet<_>>();
    for ptr in blocks2ptrs.values() {
        for inner in ptr.iter() {
            let addr = allocator.address(inner).unwrap();
            assert!(memory_locations.contains(&addr));
            memory_locations.remove(&addr);
        }
    }
}

fn test_load_store<H: GcHeap>(blocks2ptrs: &HashMap<usize, Pointer>, allocator: &mut H) {
    let mut value = 0;
    for p in blocks2ptrs.values() {
        for pt in p.iter() {
            allocator.store(pt, value).unwrap();
            assert_eq!(value, allocator.load(pt).unwrap());
            value += 1;
        }
    }

    value = 0;
    for p in blocks2ptrs.values() {
        for pt in p.iter() {
            assert_eq!(value, allocator.load(pt).unwrap());
            value += 1;
        }
    }
}

fn total_words_allocated(blocks2ptrs: &HashMap<usize, Pointer>) -> usize {
    blocks2ptrs.values().map(|p| p.len()).sum()
}

fn test_out_of_blocks<H: GcHeap>(allocator: &mut H, tracer: &mut TestTracer) {
    match tracer.allocate_next(1, allocator) {
        Ok(_) => panic!("Allocator should be out of space - this should be an error"),
        Err(e) => assert_eq!(e, HeapError::OutOfBlocks),
    }
}

#[test]
fn generational_test() {
    let mut allocator = GenerationalHeap::<100, 120, 2>::new();
    let mut tracer = TestTracer::default();
    let mut blocks2ptrs = HashMap::new();
    allocate_many(40, &mut allocator, &mut tracer, &mut blocks2ptrs);
    allocator.assert_no_strays();

    assert_eq!(blocks2ptrs.len(), allocator.num_allocated_blocks());
    for (_, c) in allocator.blocks_num_copies() {
        assert_eq!(c, 0);
    }

    for expected_copies in 1..=3 {
        force_copy_n(expected_copies, &mut allocator, &mut tracer, &mut blocks2ptrs);
        for (b, c) in allocator.blocks_num_copies() {
            if b >= expected_copies && b < blocks2ptrs.len() {
                assert_eq!(c, expected_copies);
            }
            if let Some(p) = blocks2ptrs.get(&b) {
                assert_eq!(p.len() as u64, allocator.load(*p).unwrap());
            }
        }
        allocator.assert_no_strays();
    }

    allocate_many(38, &mut allocator, &mut tracer, &mut blocks2ptrs);
    allocator.assert_no_strays();

    for _ in 1..=4 {
        tracer.deallocate_next().unwrap();
        tracer.allocate_next(1, &mut allocator).unwrap();
        allocator.assert_no_strays();
    }

    for (_, c) in allocator.blocks_num_copies() {
        assert!(c <= 3);
    }

    tracer.deallocate_any_that(|p| p.len() != 3);

    tracer.allocate_next(1, &mut allocator).unwrap();
    allocator.assert_no_strays();
    for (_, c) in allocator.blocks_num_copies() {
        assert!(c <= 4);
    }
}

fn allocate_many<H: GcHeap>(
    num_allocations: usize,
    allocator: &mut H,
    tracer: &mut TestTracer,
    blocks2ptrs: &mut HashMap<usize, Pointer>,
) {
    for i in 0..num_allocations {
        let size = i % 4 + 1;
        let p = tracer.allocate_next(size, allocator).unwrap();
        blocks2ptrs.insert(p.block_num(), p);
        for addr in p.iter() {
            allocator.store(addr, size as u64).unwrap();
        }
    }
}

fn force_copy_n<H: GcHeap>(
    n: usize,
    allocator: &mut H,
    tracer: &mut TestTracer,
    blocks2ptrs: &mut HashMap<usize, Pointer>,
) {
    let d = tracer.deallocate_next().unwrap();
    assert_eq!(n, d.len());
    blocks2ptrs.remove(&d.block_num());
    let p = tracer.allocate_next(n, allocator).unwrap();
    blocks2ptrs.insert(p.block_num(), p);
    allocator.store(p, n as u64).unwrap();
}
