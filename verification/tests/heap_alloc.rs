use jumpstart::heap::{
    backing_memory_to_string, memcpy, memory_type_to_string, memset, ChunkIterator, HeapInfo, JumpStartHeaps,
    MemChunk, BACKING_MEMORY_DDR, MEMCHUNK_USED, MEMORY_TYPE_UC, MEMORY_TYPE_WB, MEMORY_TYPE_WC,
};

fn wb_heap() -> JumpStartHeaps {
    let mut h = JumpStartHeaps::new();
    h.setup_heap(0x1000, 0x2000, BACKING_MEMORY_DDR, MEMORY_TYPE_WB);
    h
}

fn fresh_heap_info() -> HeapInfo {
    let mut heap = HeapInfo {
        backing_memory: BACKING_MEMORY_DDR,
        memory_type: MEMORY_TYPE_WB,
        head: 0,
        chunks: Vec::new(),
        last_allocated: None,
        size: 0,
        setup_done: false,
    };
    heap.setup(0x1000, 0x2000);
    heap
}

#[test]
fn setup_creates_one_free_chunk() {
    let heap = fresh_heap_info();
    assert!(heap.setup_done);
    assert_eq!(heap.head, 0x1000);
    assert_eq!(heap.size, 0x1000);
    assert_eq!(heap.chunks, vec![MemChunk { addr: 0x1000, size: 0x1000 - 16 }]);
    assert_eq!(heap.last_allocated, None);
}

#[test]
fn setup_twice_at_same_start_changes_nothing() {
    let mut heap = fresh_heap_info();
    let a = heap.alloc_block(16, 8);
    assert_eq!(a, 0x1010);
    let before = heap.chunks.clone();
    heap.setup(0x1000, 0x3000);
    assert_eq!(heap.chunks, before);
    assert_eq!(heap.size, 0x1000);
}

#[test]
fn alloc_splits_chunk() {
    let mut heap = fresh_heap_info();
    assert_eq!(heap.alloc_block(16, 8), 0x1010);
    assert_eq!(
        heap.chunks,
        vec![MemChunk { addr: 0x1000, size: 16 | MEMCHUNK_USED }, MemChunk { addr: 0x1020, size: 4048 }]
    );
    assert_eq!(heap.last_allocated, Some(0));
}

#[test]
fn aligned_alloc_leaves_leading_free_chunk() {
    let mut heap = fresh_heap_info();
    assert_eq!(heap.alloc_block(8, 64), 0x1040);
    assert_eq!(
        heap.chunks,
        vec![
            MemChunk { addr: 0x1000, size: 32 },
            MemChunk { addr: 0x1030, size: 8 | MEMCHUNK_USED },
            MemChunk { addr: 0x1048, size: 4008 },
        ]
    );
}

#[test]
fn free_merges_both_neighbours() {
    let mut heap = fresh_heap_info();
    let p = heap.alloc_block(8, 64);
    heap.free_block(p);
    assert_eq!(heap.chunks, vec![MemChunk { addr: 0x1000, size: 4080 }]);
    assert_eq!(heap.last_allocated, None);
}

#[test]
fn whole_heap_block_is_not_split() {
    let mut heap = fresh_heap_info();
    assert_eq!(heap.alloc_block(4080, 8), 0x1010);
    assert_eq!(heap.chunks, vec![MemChunk { addr: 0x1000, size: 4080 | MEMCHUNK_USED }]);
    assert_eq!(heap.alloc_block(8, 8), 0);
}

#[test]
fn small_remainder_stays_with_block() {
    let mut heap = fresh_heap_info();
    // 4080 - 4064 = 16 bytes left: too little for a chunk of its own.
    assert_eq!(heap.alloc_block(4064, 8), 0x1010);
    assert_eq!(heap.chunks, vec![MemChunk { addr: 0x1000, size: 4080 | MEMCHUNK_USED }]);
}

#[test]
fn malloc_searches_round_robin() {
    let mut h = wb_heap();
    let a = h.malloc(10);
    let b = h.malloc(10);
    assert_eq!(a, 0x1010);
    assert_eq!(b, 0x1030);
    h.free(a);
    // The search resumes after the last allocated chunk, not at the head.
    let c = h.malloc(10);
    assert_eq!(c, 0x1050);
    assert!(!h.owns_block(a, BACKING_MEMORY_DDR, MEMORY_TYPE_WB));
    assert!(h.owns_block(b, BACKING_MEMORY_DDR, MEMORY_TYPE_WB));
    assert!(h.owns_block(c, BACKING_MEMORY_DDR, MEMORY_TYPE_WB));
}

#[test]
fn memalign_returns_aligned_block() {
    let mut h = wb_heap();
    let p = h.memalign(64, 8);
    assert_eq!(p, 0x1040);
    assert_eq!(p % 64, 0);
    assert!(h.owns_block(p, BACKING_MEMORY_DDR, MEMORY_TYPE_WB));
    assert!(!h.owns_block(p + 4, BACKING_MEMORY_DDR, MEMORY_TYPE_WB));
    let q = h.memalign(16, 8);
    assert_eq!(q % 16, 0);
}

#[test]
fn free_then_whole_heap_fits_again() {
    let mut h = wb_heap();
    let p = h.memalign(64, 8);
    h.free(p);
    assert_eq!(h.malloc(4080), 0x1010);
    assert_eq!(h.malloc(8), 0);
}

#[test]
fn malloc_edge_cases_return_null() {
    let mut h = wb_heap();
    assert_eq!(h.malloc(0), 0);
    assert_eq!(h.malloc(4081), 0);
    assert_eq!(h.malloc(u64::MAX), 0);
    assert_eq!(h.memalign(3, 8), 0);
    assert_eq!(h.memalign(0, 8), 0);
    assert_eq!(h.memalign(8, u64::MAX - 3), 0);
    // Nothing was taken by the failed requests.
    assert_eq!(h.malloc(4080), 0x1010);
}

#[test]
fn heap_not_set_up_returns_null() {
    let mut h = JumpStartHeaps::new();
    assert_eq!(h.malloc(8), 0);
    assert_eq!(h.calloc(1, 8), 0);
    assert!(!h.owns_block(0x1010, BACKING_MEMORY_DDR, MEMORY_TYPE_WB));
}

#[test]
fn unknown_memory_kind_returns_null() {
    let mut h = wb_heap();
    assert_eq!(h.alloc_from_memory(8, 8, BACKING_MEMORY_DDR, 7), 0);
    assert_eq!(h.alloc_from_memory(8, 8, 2, MEMORY_TYPE_WB), 0);
    assert_eq!(h.malloc_from_memory(8, 2, MEMORY_TYPE_WB), 0);
}

#[test]
fn calloc_multiplies_and_saturates() {
    let mut h = wb_heap();
    assert_eq!(h.calloc(3, 5), 0x1010);
    assert_eq!(h.calloc(u64::MAX, 2), 0);
    assert_eq!(h.calloc(0, 8), 0);
}

#[test]
fn heaps_are_separate_per_memory_type() {
    let mut h = wb_heap();
    h.setup_heap(0x4000, 0x5000, BACKING_MEMORY_DDR, MEMORY_TYPE_WC);
    let w = h.malloc_from_memory(24, BACKING_MEMORY_DDR, MEMORY_TYPE_WC);
    assert_eq!(w, 0x4010);
    assert_eq!(h.malloc_from_memory(8, BACKING_MEMORY_DDR, MEMORY_TYPE_UC), 0);
    assert!(h.owns_block(w, BACKING_MEMORY_DDR, MEMORY_TYPE_WC));
    assert!(!h.owns_block(w, BACKING_MEMORY_DDR, MEMORY_TYPE_WB));
    let c = h.calloc_from_memory(2, 4, BACKING_MEMORY_DDR, MEMORY_TYPE_WC);
    assert!(c > w);
    let m = h.memalign_from_memory(256, 16, BACKING_MEMORY_DDR, MEMORY_TYPE_WC);
    assert_eq!(m % 256, 0);
    h.free_from_memory(w, BACKING_MEMORY_DDR, MEMORY_TYPE_WC);
    assert!(!h.owns_block(w, BACKING_MEMORY_DDR, MEMORY_TYPE_WC));
    h.dealloc_from_memory(c, BACKING_MEMORY_DDR, MEMORY_TYPE_WC);
    assert!(!h.owns_block(c, BACKING_MEMORY_DDR, MEMORY_TYPE_WC));
    // The write-back heap is untouched by the others.
    assert_eq!(h.malloc(4080), 0x1010);
}

#[test]
fn free_null_is_ignored() {
    let mut h = wb_heap();
    h.free(0);
    h.free_from_memory(0, BACKING_MEMORY_DDR, MEMORY_TYPE_WB);
    assert_eq!(h.malloc(4080), 0x1010);
}

#[test]
fn allocation_adds_owned_block() {
    let mut h = wb_heap();
    let p = h.malloc(100);
    assert_ne!(p, 0);
    assert!(h.owns_block(p, BACKING_MEMORY_DDR, MEMORY_TYPE_WB));
    assert!(p >= 0x1000 + 16 && p + 104 <= 0x2000);
}

#[test]
fn free_removes_owned_block() {
    let mut h = wb_heap();
    let p = h.malloc(100);
    let q = h.malloc(100);
    h.free(p);
    assert!(!h.owns_block(p, BACKING_MEMORY_DDR, MEMORY_TYPE_WB));
    assert!(h.owns_block(q, BACKING_MEMORY_DDR, MEMORY_TYPE_WB));
}

#[test]
fn free_undoes_alloc() {
    let mut heap = fresh_heap_info();
    let first = heap.alloc_block(24, 8);
    let before = heap.chunks.clone();
    let p = heap.alloc_block(40, 8);
    heap.free_block(p);
    let used_before: Vec<MemChunk> = before.iter().copied().filter(|c| c.size & MEMCHUNK_USED != 0).collect();
    let used_after: Vec<MemChunk> = heap.chunks.iter().copied().filter(|c| c.size & MEMCHUNK_USED != 0).collect();
    assert_eq!(used_before, used_after);
    assert_eq!(used_after, vec![MemChunk { addr: first - 16, size: 24 | MEMCHUNK_USED }]);
}

#[test]
fn allocated_blocks_do_not_overlap() {
    let mut h = wb_heap();
    let mut blocks: Vec<(u64, u64)> = Vec::new();
    for size in [8u64, 24, 100, 7, 64] {
        let p = h.malloc(size);
        assert_ne!(p, 0);
        blocks.push((p, (size + 7) / 8 * 8));
    }
    for (i, a) in blocks.iter().enumerate() {
        for b in blocks.iter().skip(i + 1) {
            assert!(a.0 + a.1 <= b.0 || b.0 + b.1 <= a.0);
        }
    }
}

#[test]
fn chunk_iterator_starts_after_last_allocated() {
    let mut it = ChunkIterator::new(3, Some(0));
    assert_eq!(it.next_chunk(), Some(1));
    assert_eq!(it.next_chunk(), Some(2));
    assert_eq!(it.next_chunk(), Some(0));
    assert_eq!(it.next_chunk(), None);
    assert_eq!(it.next_chunk(), None);
}

#[test]
fn chunk_iterator_wraps_to_head_after_last_chunk() {
    let mut it = ChunkIterator::new(3, Some(2));
    assert_eq!(it.next_chunk(), Some(0));
    assert_eq!(it.next_chunk(), Some(1));
    assert_eq!(it.next_chunk(), Some(2));
    assert_eq!(it.next_chunk(), None);
}

#[test]
fn chunk_iterator_visits_each_chunk_once() {
    for n in 1usize..6 {
        for last in 0..n {
            let mut it = ChunkIterator::new(n, Some(last));
            let mut seen: Vec<usize> = Vec::new();
            while let Some(i) = it.next_chunk() {
                seen.push(i);
            }
            let mut sorted = seen.clone();
            sorted.sort();
            assert_eq!(sorted, (0..n).collect::<Vec<usize>>());
        }
    }
    let mut empty = ChunkIterator::new(0, None);
    assert_eq!(empty.next_chunk(), None);
    let mut from_head = ChunkIterator::new(2, None);
    assert_eq!(from_head.next_chunk(), Some(0));
    assert_eq!(from_head.next_chunk(), Some(1));
    assert_eq!(from_head.next_chunk(), None);
}

#[test]
fn memory_kind_names() {
    assert_eq!(backing_memory_to_string(BACKING_MEMORY_DDR), "DDR");
    assert_eq!(backing_memory_to_string(9), "UNKNOWN");
    assert_eq!(memory_type_to_string(MEMORY_TYPE_WB), "WB");
    assert_eq!(memory_type_to_string(MEMORY_TYPE_WC), "WC");
    assert_eq!(memory_type_to_string(MEMORY_TYPE_UC), "UC");
    assert_eq!(memory_type_to_string(9), "UNKNOWN");
}

#[test]
fn memset_fills_low_byte() {
    let mut v = vec![1u8; 5];
    memset(&mut v, 0x1AB, 3);
    assert_eq!(v, vec![0xAB, 0xAB, 0xAB, 1, 1]);
    memset(&mut v, 0, 0);
    assert_eq!(v, vec![0xAB, 0xAB, 0xAB, 1, 1]);
}

#[test]
fn memcpy_copies_prefix() {
    let mut d = vec![0u8; 4];
    memcpy(&mut d, &[9, 8, 7, 6, 5], 3);
    assert_eq!(d, vec![9, 8, 7, 0]);
}

#[test]
fn heap_state_reports_setup() {
    let mut h = JumpStartHeaps::new();
    assert_eq!(h.heap_state(BACKING_MEMORY_DDR, MEMORY_TYPE_WB), Some((false, 0)));
    assert_eq!(h.heap_state(BACKING_MEMORY_DDR, 7), None);
    assert_eq!(h.heap_state(2, MEMORY_TYPE_WB), None);
    h.setup_heap(0x1000, 0x2000, BACKING_MEMORY_DDR, MEMORY_TYPE_WB);
    assert_eq!(h.heap_state(BACKING_MEMORY_DDR, MEMORY_TYPE_WB), Some((true, 0x1000)));
    assert_eq!(h.heap_state(BACKING_MEMORY_DDR, MEMORY_TYPE_UC), Some((false, 0)));
    // Setting up again at the same start changes nothing.
    h.setup_heap(0x1000, 0x3000, BACKING_MEMORY_DDR, MEMORY_TYPE_WB);
    assert_eq!(h.malloc(4080), 0x1010);
    assert_eq!(h.malloc(8), 0);
}

fn no_two_free_neighbours(chunks: &[MemChunk]) -> bool {
    chunks.windows(2).all(|w| w[0].size & MEMCHUNK_USED != 0 || w[1].size & MEMCHUNK_USED != 0)
}

#[test]
fn allocation_and_free_keep_free_chunks_apart() {
    let mut heap = fresh_heap_info();
    assert!(no_two_free_neighbours(&heap.chunks));
    let a = heap.alloc_block(16, 8);
    let b = heap.alloc_block(8, 64);
    let c = heap.alloc_block(40, 8);
    let d = heap.alloc_block(24, 256);
    assert!(no_two_free_neighbours(&heap.chunks));
    for p in [b, d, a, c] {
        heap.free_block(p);
        assert!(no_two_free_neighbours(&heap.chunks));
    }
    assert_eq!(heap.chunks, vec![MemChunk { addr: 0x1000, size: 4080 }]);
}

#[test]
fn heap_at_top_of_address_space() {
    let mut h = JumpStartHeaps::new();
    h.setup_heap(0xFFFF_FFFF_FFFF_F000, u64::MAX, BACKING_MEMORY_DDR, MEMORY_TYPE_WB);
    // Rounding up to these alignments would pass the end of the address space.
    assert_eq!(h.memalign(0x8000_0000_0000_0000, 8), 0);
    assert_eq!(h.memalign(0x1000, 8), 0);
    assert_eq!(h.malloc(8), 0xFFFF_FFFF_FFFF_F010);
}

#[test]
fn heap_larger_than_quarter_of_address_space() {
    let mut h = JumpStartHeaps::new();
    h.setup_heap(0x1000, 0x8000_0000_0000_0000, BACKING_MEMORY_DDR, MEMORY_TYPE_WB);
    assert_eq!(h.malloc(0x5000_0000_0000_0000), 0x1010);
    assert_eq!(h.heap_state(BACKING_MEMORY_DDR, MEMORY_TYPE_WB), Some((true, 0x1000)));
}

#[test]
fn chunk_walk_order_then_none_forever() {
    let mut it = ChunkIterator::new(5, Some(2));
    let mut seen: Vec<Option<usize>> = Vec::new();
    for _ in 0..9 {
        seen.push(it.next_chunk());
    }
    assert_eq!(seen, vec![Some(3), Some(4), Some(0), Some(1), Some(2), None, None, None, None]);
}
