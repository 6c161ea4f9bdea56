//! Tests of the raw allocator: best-fit allocation, splitting, tail
//! absorption, freeing and right-coalescing.

use emballoc::entry::Entry;
use emballoc::raw_allocator::{FreeError, RawAllocator};

/// All record headers of the allocator's buffer, front to back.
fn headers<const N: usize>(allocator: &RawAllocator<N>) -> Vec<Entry> {
    let mut result = Vec::new();
    let mut iter = allocator.buffer.entries();
    while let Some(offset) = iter.next() {
        result.push(allocator.buffer.header_at(offset.0));
    }
    result
}

#[test]
fn successful_single_allocation() {
    let mut allocator = RawAllocator::<32>::new();
    allocator.allocate(4).unwrap();

    assert_eq!(headers(&allocator), vec![Entry::used(4), Entry::free(20)]);
}

#[test]
fn unsuccessful_single_allocation() {
    let mut allocator = RawAllocator::<32>::new();
    assert!(allocator.allocate(36).is_none());
}

#[test]
fn successful_multiple_allocation() {
    let mut allocator = RawAllocator::<32>::new();
    allocator.allocate(12).unwrap();
    allocator.allocate(12).unwrap();
    // allocator is now full
}

#[test]
fn two_allocates_fill() {
    let mut allocator = RawAllocator::<32>::new();
    allocator.allocate(12).unwrap();
    allocator.allocate(12).unwrap();
    assert!(allocator.allocate(1).is_none());
    assert_eq!(headers(&allocator), vec![Entry::used(12), Entry::used(12)]);
}

#[test]
fn unsuccessful_multiple_allocation() {
    let mut allocator = RawAllocator::<32>::new();
    allocator.allocate(12).unwrap();
    assert!(allocator.allocate(13).is_none());
}

#[test]
fn simple_free() {
    let mut allocator = RawAllocator::<8>::new();
    let ptr = allocator.allocate(4).unwrap();

    // free the memory without concatenation
    allocator.free(ptr).unwrap();

    assert_eq!(headers(&allocator), vec![Entry::free(4)]);
}

#[test]
fn double_free() {
    let mut allocator = RawAllocator::<32>::new();
    let ptr = allocator.allocate(4).unwrap();
    allocator.allocate(4).unwrap();

    allocator.free(ptr).unwrap();
    assert_eq!(allocator.free(ptr).unwrap_err(), FreeError::DoubleFreeDetected);
}

#[test]
fn invalid_free() {
    let mut allocator = RawAllocator::<32>::new();
    allocator.allocate(4).unwrap();

    // offsets outside of every payload: a header offset and one past the
    // end of the whole buffer
    assert_eq!(allocator.free(0), Err(FreeError::AllocationNotFound));
    assert_eq!(allocator.free(1000), Err(FreeError::AllocationNotFound));
}

#[test]
fn free_with_defrag() {
    let mut allocator = RawAllocator::<32>::new();
    let ptr = allocator.allocate(4).unwrap();

    // freeing the block absorbs the free record to its right
    allocator.free(ptr).unwrap();

    assert_eq!(headers(&allocator), vec![Entry::free(28)]);
}

#[test]
fn free_at_end() {
    let mut allocator = RawAllocator::<32>::new();
    allocator.allocate(20).unwrap();
    let ptr = allocator.allocate(4).unwrap();

    // free the memory without concatenation
    allocator.free(ptr).unwrap();

    assert_eq!(headers(&allocator), vec![Entry::used(20), Entry::free(4)]);
}

#[test]
fn free_impossible_defrag() {
    let mut allocator = RawAllocator::<16>::new();
    let ptr1 = allocator.allocate(4).unwrap();
    let ptr2 = allocator.allocate(4).unwrap();
    allocator.free(ptr1).unwrap();

    // now there is a free block, followed by a used block which in turn
    // gets freed up. The two contiguous free blocks are not concatenated,
    // since the older free block is to the left (instead of to the right).
    allocator.free(ptr2).unwrap();

    assert_eq!(headers(&allocator), vec![Entry::free(4), Entry::free(4)]);
}

#[test]
fn entries() {
    let mut allocator = RawAllocator::<256>::new();
    allocator.allocate(8).unwrap();
    allocator.allocate(56).unwrap();

    assert_eq!(
        headers(&allocator),
        vec![Entry::used(8), Entry::used(56), Entry::free(180)]
    );
}

#[test]
fn requests_are_rounded_up() {
    let mut allocator = RawAllocator::<32>::new();
    allocator.allocate(5).unwrap();

    assert_eq!(headers(&allocator), vec![Entry::used(8), Entry::free(16)]);
}

#[test]
fn best_fit_picks_smallest_and_first() {
    let mut allocator = RawAllocator::<64>::new();
    let a = allocator.allocate(8).unwrap();
    allocator.allocate(4).unwrap();
    let c = allocator.allocate(8).unwrap();
    allocator.allocate(4).unwrap();
    // [Used(8), Used(4), Used(8), Used(4), Free(20)]
    allocator.free(a).unwrap();
    allocator.free(c).unwrap();
    // [Free(8), Used(4), Free(8), Used(4), Free(20)]

    // the smallest fitting record wins, and of the two Free(8) records the
    // first one does
    let p = allocator.allocate(8).unwrap();
    assert_eq!(p, a);
    // now only the Free(8) at the old position of `c` fits an 8-byte
    // request best
    let q = allocator.allocate(8).unwrap();
    assert_eq!(q, c);
}

#[test]
fn exhaustion_and_recovery() {
    let mut allocator = RawAllocator::<32>::new();
    let ptr = allocator.allocate(28).unwrap();
    assert_eq!(headers(&allocator), vec![Entry::used(28)]);

    // the heap is exhausted: every further request fails
    assert!(allocator.allocate(1).is_none());
    assert!(allocator.allocate(4).is_none());

    // a free makes the memory available again
    allocator.free(ptr).unwrap();
    assert_eq!(headers(&allocator), vec![Entry::free(28)]);
    allocator.allocate(4).unwrap();
}

#[test]
fn too_large_requests_fail() {
    let mut allocator = RawAllocator::<32>::new();
    // largest free record holds 28 bytes; 29 rounds up to 32 and fails
    assert!(allocator.allocate(29).is_none());
    assert!(allocator.allocate(28).is_some());
}

#[test]
fn tail_allocation_absorbs_waste() {
    let mut allocator = RawAllocator::<16>::new();
    // the only record is the last one; splitting off 8 bytes would leave a
    // zero-sized follower, so the used record absorbs the full 12 bytes
    allocator.allocate(8).unwrap();
    assert_eq!(headers(&allocator), vec![Entry::used(12)]);
}

#[test]
fn zero_sized_follower_between_records() {
    let mut allocator = RawAllocator::<24>::new();
    // [Free(20)]; allocating 12 leaves [Used(12), Free(4)]
    let a = allocator.allocate(12).unwrap();
    // the Free(4) record at the tail is taken whole
    allocator.allocate(4).unwrap();
    assert_eq!(headers(&allocator), vec![Entry::used(12), Entry::used(4)]);

    // freeing the first block and allocating 8 splits Free(12) into
    // Used(8) and a zero-sized free record before the used tail record
    allocator.free(a).unwrap();
    allocator.allocate(8).unwrap();
    assert_eq!(
        headers(&allocator),
        vec![Entry::used(8), Entry::free(0), Entry::used(4)]
    );
}

#[test]
fn alloc_free_round_trip_restores_records() {
    let mut allocator = RawAllocator::<32>::new();
    allocator.allocate(8).unwrap();
    // [Used(8), Free(16)]
    let before = headers(&allocator);
    let p = allocator.allocate(4).unwrap();
    allocator.free(p).unwrap();
    assert_eq!(headers(&allocator), before);
}
