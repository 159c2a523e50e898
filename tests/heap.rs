use heap_alloc::block::Block;
use heap_alloc::{alloc_in, AllocType, Heap, HeapError};

fn heap(kind: AllocType, start: usize, size: usize) -> Heap {
    let mut h = Heap::empty();
    h.init(kind, start, size);
    h
}

fn present(h: &Heap) -> Vec<Block> {
    (0..32).filter_map(|i| h.slot(i)).collect()
}

#[test]
fn empty_heap_has_no_free_blocks() {
    let mut h = Heap::empty();
    assert!(present(&h).is_empty());
    assert_eq!(h.heap_start(), 0);
    assert_eq!(h.heap_size(), 0);
    assert_eq!(h.allocate(1, 1), Err(HeapError::OutOfMemory));
}

#[test]
fn init_seeds_one_block() {
    let h = heap(AllocType::Worst, 0x1000, 256);
    assert_eq!(h.slot(0), Some(Block::new(0x1000, 256)));
    assert_eq!(present(&h).len(), 1);
    assert_eq!(h.alloc_type(), AllocType::Worst);
    assert_eq!(h.heap_start(), 0x1000);
    assert_eq!(h.heap_size(), 256);
}

#[test]
fn first_fit_serves_region_start() {
    let mut h = heap(AllocType::First, 0x1000, 256);
    assert_eq!(h.allocate(32, 8), Ok(0x1000));
    assert_eq!(h.slot(0), Some(Block::new(0x1020, 256 - 32)));
    assert_eq!(present(&h).len(), 1);
}

#[test]
fn best_fit_picks_smallest_block() {
    let mut h = heap(AllocType::Best, 0x2000, 300);
    assert_eq!(h.allocate(50, 1), Ok(0x2000));
    assert_eq!(h.allocate(10, 1), Ok(0x2032));
    assert_eq!(h.allocate(100, 1), Ok(0x203C));
    assert_eq!(h.deallocate(0x2000, 50, 1), Ok(()));
    assert_eq!(h.deallocate(0x2032, 10, 1), Ok(()));
    assert_eq!(h.deallocate(0x203C, 100, 1), Ok(()));
    let sizes: Vec<usize> = present(&h).iter().map(|b| b.size).collect();
    assert_eq!(sizes, vec![10, 50, 100, 140]);
    assert_eq!(h.allocate(9, 1), Ok(0x2032));
    assert_eq!(h.slot(0), Some(Block::new(0x203B, 1)));
}

#[test]
fn exact_size_request_is_refused() {
    let mut h = heap(AllocType::First, 0x1000, 64);
    assert_eq!(h.allocate(64, 1), Err(HeapError::OutOfMemory));
    assert_eq!(h.allocate(64, 8), Err(HeapError::OutOfMemory));
    assert_eq!(h.slot(0), Some(Block::new(0x1000, 64)));
    assert_eq!(h.allocate(63, 1), Ok(0x1000));
}

#[test]
fn worst_fit_picks_largest_block() {
    let mut h = heap(AllocType::Worst, 0x4000, 1000);
    assert_eq!(h.allocate(100, 1), Ok(0x4000));
    assert_eq!(h.allocate(300, 1), Ok(0x4064));
    assert_eq!(h.allocate(200, 1), Ok(0x4190));
    assert_eq!(h.deallocate(0x4000, 100, 1), Ok(()));
    assert_eq!(h.deallocate(0x4190, 200, 1), Ok(()));
    assert_eq!(h.deallocate(0x4064, 300, 1), Ok(()));
    let sizes: Vec<usize> = present(&h).iter().map(|b| b.size).collect();
    assert_eq!(sizes, vec![400, 300, 200, 100]);
    assert_eq!(h.allocate(150, 1), Ok(0x4258));
}

#[test]
fn first_fit_keeps_addresses_ascending() {
    let mut h = heap(AllocType::First, 0x1000, 256);
    assert_eq!(h.allocate(16, 1), Ok(0x1000));
    assert_eq!(h.allocate(16, 1), Ok(0x1010));
    assert_eq!(h.allocate(16, 1), Ok(0x1020));
    assert_eq!(h.deallocate(0x1020, 16, 1), Ok(()));
    assert_eq!(h.deallocate(0x1000, 16, 1), Ok(()));
    assert_eq!(h.deallocate(0x1010, 16, 1), Ok(()));
    let starts: Vec<usize> = present(&h).iter().map(|b| b.start).collect();
    assert_eq!(starts, vec![0x1000, 0x1010, 0x1020, 0x1030]);
}

#[test]
fn allocation_skips_alignment_padding() {
    let mut h = heap(AllocType::First, 0x1001, 100);
    assert_eq!(h.allocate(8, 8), Ok(0x1008));
    assert_eq!(h.slot(0), Some(Block::new(0x1010, 85)));
}

#[test]
fn allocation_rounds_size_up() {
    let mut h = heap(AllocType::First, 0x1000, 64);
    assert_eq!(alloc_in(&mut h, 5, 4), Ok(0x1000));
    assert_eq!(h.slot(0), Some(Block::new(0x1008, 56)));
}

#[test]
fn allocations_stay_in_region_and_aligned() {
    let mut h = heap(AllocType::First, 0x1003, 500);
    let mut taken: Vec<(usize, usize)> = Vec::new();
    for (size, align) in [(10usize, 4usize), (3, 16), (7, 1), (20, 8), (1, 64)] {
        let a = h.allocate(size, align).unwrap();
        assert_eq!(a % align, 0);
        assert!(a >= 0x1003 && a < 0x1003 + 500);
        let end = a + (size + align - 1) / align * align;
        for &(s, e) in &taken {
            assert!(end <= s || e <= a);
        }
        taken.push((a, end));
    }
}

#[test]
fn bad_alignment_is_refused() {
    let mut h = heap(AllocType::First, 0x1000, 64);
    assert_eq!(h.allocate(8, 3), Err(HeapError::InvalidAlignment));
    assert_eq!(h.allocate(8, 0), Err(HeapError::InvalidAlignment));
    assert_eq!(h.slot(0), Some(Block::new(0x1000, 64)));
}

#[test]
fn huge_request_is_out_of_memory() {
    let mut h = heap(AllocType::First, 0x1000, 64);
    assert_eq!(h.allocate(usize::MAX, 8), Err(HeapError::OutOfMemory));
    assert_eq!(h.allocate(usize::MAX - 3, 1), Err(HeapError::OutOfMemory));
}

#[test]
fn free_outside_region_is_refused() {
    let mut h = heap(AllocType::First, 0x1000, 64);
    assert_eq!(h.deallocate(0x0FFF, 4, 1), Err(HeapError::OutOfRegion));
    assert_eq!(h.deallocate(0x1000 + 60, 8, 1), Err(HeapError::OutOfRegion));
    assert_eq!(h.deallocate(usize::MAX, 1, 1), Err(HeapError::OutOfRegion));
    assert_eq!(present(&h).len(), 1);
    assert_eq!(h.deallocate(0x1000 + 60, 4, 1), Ok(()));
    assert_eq!(present(&h).len(), 2);
}

#[test]
fn free_into_full_store_is_refused() {
    let mut h = heap(AllocType::First, 0x1000, 1024);
    for k in 0..31usize {
        assert_eq!(h.allocate(16, 1), Ok(0x1000 + 16 * k));
    }
    for k in 0..31usize {
        assert_eq!(h.deallocate(0x1000 + 16 * k, 16, 1), Ok(()));
    }
    assert_eq!(present(&h).len(), 32);
    assert_eq!(h.allocate(8, 1), Ok(0x1000));
    assert_eq!(h.deallocate(0x1000, 8, 1), Err(HeapError::BookFull));
    assert_eq!(h.slot(0), Some(Block::new(0x1008, 8)));
    assert_eq!(present(&h).len(), 32);
}
