use heap_alloc::block::Block;
use heap_alloc::sort::{quick_sort_for_best, quick_sort_for_first, quick_sort_for_worst};

fn store(blocks: &[(usize, usize)]) -> [Option<Block>; 32] {
    let mut book = [None; 32];
    for (i, &(start, size)) in blocks.iter().enumerate() {
        book[i] = Some(Block::new(start, size));
    }
    book
}

#[test]
fn first_orders_by_start() {
    let mut book = store(&[(0x30, 5), (0x10, 50), (0x20, 1), (0x00, 9)]);
    quick_sort_for_first(&mut book, 0, 31);
    assert_eq!(book[0], Some(Block::new(0x00, 9)));
    assert_eq!(book[1], Some(Block::new(0x10, 50)));
    assert_eq!(book[2], Some(Block::new(0x20, 1)));
    assert_eq!(book[3], Some(Block::new(0x30, 5)));
    assert!(book[4..].iter().all(|s| s.is_none()));
}

#[test]
fn best_orders_by_size_ascending() {
    let mut book = store(&[(0x30, 5), (0x10, 50), (0x20, 1), (0x00, 9)]);
    quick_sort_for_best(&mut book, 0, 31);
    let sizes: Vec<usize> = book[..4].iter().map(|s| s.unwrap().size).collect();
    assert_eq!(sizes, vec![1, 5, 9, 50]);
    assert!(book[4..].iter().all(|s| s.is_none()));
}

#[test]
fn worst_orders_by_size_descending() {
    let mut book = store(&[(0x30, 5), (0x10, 50), (0x20, 1), (0x00, 9)]);
    quick_sort_for_worst(&mut book, 0, 31);
    let sizes: Vec<usize> = book[..4].iter().map(|s| s.unwrap().size).collect();
    assert_eq!(sizes, vec![50, 9, 5, 1]);
    assert!(book[4..].iter().all(|s| s.is_none()));
}

#[test]
fn absent_slots_move_to_the_tail() {
    let mut book = [None; 32];
    book[3] = Some(Block::new(0x40, 4));
    book[7] = Some(Block::new(0x10, 8));
    book[31] = Some(Block::new(0x20, 2));
    quick_sort_for_first(&mut book, 0, 31);
    assert_eq!(book[0], Some(Block::new(0x10, 8)));
    assert_eq!(book[1], Some(Block::new(0x20, 2)));
    assert_eq!(book[2], Some(Block::new(0x40, 4)));
    assert!(book[3..].iter().all(|s| s.is_none()));
}

#[test]
fn sort_leaves_slots_outside_the_range() {
    let mut book = store(&[(0x30, 5), (0x20, 50), (0x10, 1), (0x00, 9)]);
    quick_sort_for_first(&mut book, 1, 2);
    assert_eq!(book[0], Some(Block::new(0x30, 5)));
    assert_eq!(book[1], Some(Block::new(0x10, 1)));
    assert_eq!(book[2], Some(Block::new(0x20, 50)));
    assert_eq!(book[3], Some(Block::new(0x00, 9)));
}

#[test]
fn full_store_is_sorted() {
    let mut book = [None; 32];
    for i in 0..32usize {
        book[i] = Some(Block::new((i * 7919) % 101, (i * 31) % 17));
    }
    quick_sort_for_best(&mut book, 0, 31);
    for i in 0..31 {
        assert!(book[i].unwrap().size <= book[i + 1].unwrap().size);
    }
}
