use tg_rcore_tutorial::heap::{BumpAlloc, HEAP_SIZE};

#[test]
fn bump_allocations_are_aligned_and_in_order() {
    let mut h = BumpAlloc::new(0x1000);
    assert_eq!(h.allocate(10, 8), Some(0x1000));
    assert_eq!(h.cursor, 10);
    assert_eq!(h.allocate(4, 16), Some(0x1010));
    assert_eq!(h.cursor, 0x14);
    assert_eq!(h.allocate(1, 1), Some(0x1014));
    assert_eq!(h.cursor, 0x15);
}

#[test]
fn bump_refuses_past_the_end_and_keeps_its_cursor() {
    let mut h = BumpAlloc::new(0x2000);
    assert_eq!(h.allocate(HEAP_SIZE, 1), Some(0x2000));
    assert_eq!(h.allocate(1, 1), None);
    assert_eq!(h.cursor, HEAP_SIZE);
    let mut h = BumpAlloc::new(0x2000);
    assert_eq!(h.allocate(HEAP_SIZE + 1, 1), None);
    assert_eq!(h.cursor, 0);
    // Padding counts toward the end of the arena.
    let mut h = BumpAlloc::new(0x2001);
    assert_eq!(h.allocate(HEAP_SIZE - 6, 8), None);
    assert_eq!(h.allocate(HEAP_SIZE - 15, 16), Some(0x2010));
}

#[test]
fn successive_blocks_never_overlap() {
    let mut h = BumpAlloc::new(0x3003);
    let mut last_end = 0x3003;
    let mut last_cursor = 0;
    for (size, align) in [(5, 4), (1, 1), (17, 32), (0, 8), (3, 2), (100, 64)] {
        let p = h.allocate(size, align).unwrap();
        assert_eq!(p % align, 0);
        assert!(p >= last_end);
        assert!(h.cursor >= last_cursor);
        last_end = p + size;
        last_cursor = h.cursor;
        assert_eq!(h.base + h.cursor, last_end);
    }
}
