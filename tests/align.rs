use heap_alloc::align::{align_down, align_up};

#[test]
fn align_down_clears_low_bits() {
    assert_eq!(align_down(0x1234, 0x100), 0x1200);
    assert_eq!(align_down(0x1200, 0x100), 0x1200);
    assert_eq!(align_down(7, 1), 7);
    assert_eq!(align_down(usize::MAX, 8), usize::MAX - 7);
}

#[test]
fn align_down_zero_alignment_keeps_address() {
    assert_eq!(align_down(0x1234, 0), 0x1234);
}

#[test]
fn align_up_rounds_to_next_multiple() {
    assert_eq!(align_up(0x1201, 0x100), 0x1300);
    assert_eq!(align_up(0x1300, 0x100), 0x1300);
    assert_eq!(align_up(0, 1), 0);
    assert_eq!(align_up(33, 8), 40);
    assert_eq!(align_up(32, 8), 32);
}

#[test]
fn align_up_is_idempotent() {
    for a in 0usize..200 {
        for k in [1usize, 2, 4, 8, 16, 64] {
            let once = align_up(a, k);
            assert_eq!(align_up(once, k), once);
            assert_eq!(once % k, 0);
            assert!(once >= a && once < a + k);
        }
    }
}
