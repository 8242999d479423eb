use gba_inflate::fast_mem::{FastAllocator, OutOfScratch};

#[test]
fn nested_acquires_reset_only_at_last_release() {
    let mut arena = FastAllocator::new(256);
    arena.acquire();
    arena.acquire();
    arena.acquire();
    arena.allocate(40, 4).unwrap();
    assert_eq!(arena.cursor, 40);
    arena.release();
    assert_eq!(arena.cursor, 40);
    arena.release();
    assert_eq!(arena.cursor, 40);
    arena.release();
    assert_eq!(arena.cursor, 0);
    assert_eq!(arena.live, 0);
}

#[test]
fn allocate_bumps_with_alignment() {
    let mut arena = FastAllocator::new(64);
    arena.acquire();
    assert_eq!(arena.allocate(3, 1), Ok(0));
    assert_eq!(arena.allocate(4, 4), Ok(4));
    assert_eq!(arena.allocate(1, 1), Ok(8));
    assert_eq!(arena.allocate(8, 8), Ok(16));
    assert_eq!(arena.cursor, 24);
    arena.release();
}

#[test]
fn allocate_fails_exactly_past_capacity() {
    let mut arena = FastAllocator::new(16);
    arena.acquire();
    assert_eq!(arena.allocate(16, 1), Ok(0));
    assert_eq!(arena.allocate(1, 1), Err(OutOfScratch));
    // Failure leaves the arena untouched.
    assert_eq!(arena.cursor, 16);
    arena.release();
    assert_eq!(arena.cursor, 0);
}

#[test]
fn deallocate_is_a_no_op() {
    let mut arena = FastAllocator::new(32);
    arena.acquire();
    let off = arena.allocate(8, 4).unwrap();
    arena.deallocate(off, 8);
    assert_eq!(arena.allocate(8, 4), Ok(8));
    arena.release();
}
