//! Tests of the alignment adapter.

use emballoc::entry::Entry;
use emballoc::raw_allocator::FreeError;
use emballoc::Allocator;

/// All record headers of the allocator's buffer, front to back.
fn headers<const N: usize>(allocator: &Allocator<N>) -> Vec<Entry> {
    let mut result = Vec::new();
    let mut iter = allocator.raw.buffer.entries();
    while let Some(offset) = iter.next() {
        result.push(allocator.raw.buffer.header_at(offset.0));
    }
    result
}

#[test]
fn small_alignments_are_free() {
    let mut allocator = Allocator::<32>::new();
    let p = allocator.allocate(5, 4).unwrap();
    assert_eq!(p % 4, 0);
    assert_eq!(p, 4);
    assert_eq!(headers(&allocator), vec![Entry::used(8), Entry::free(16)]);
    assert!(allocator.dealloc(p, 5, 4).is_ok());
    assert_eq!(headers(&allocator), vec![Entry::free(28)]);
}

#[test]
fn aligned_allocation() {
    let mut allocator = Allocator::<64>::new();
    let p = allocator.allocate(1, 16).unwrap();
    assert_eq!(p % 16, 0);
    assert!(allocator.dealloc(p, 1, 16).is_ok());
    assert_eq!(headers(&allocator), vec![Entry::free(60)]);
}

#[test]
fn aligned_allocations_do_not_overlap() {
    let mut allocator = Allocator::<128>::new();
    let p = allocator.allocate(8, 32).unwrap();
    let q = allocator.allocate(8, 32).unwrap();
    assert_eq!(p % 32, 0);
    assert_eq!(q % 32, 0);
    assert!(p + 8 <= q || q + 8 <= p);
}

#[test]
fn zero_sized_requests_use_no_heap() {
    let mut allocator = Allocator::<32>::new();
    let before = headers(&allocator);
    let p = allocator.allocate(0, 8).unwrap();
    assert!(p != 0);
    assert_eq!(p % 8, 0);
    assert_eq!(headers(&allocator), before);
    assert!(allocator.dealloc(p, 0, 8).is_ok());
    assert_eq!(headers(&allocator), before);
}

#[test]
fn failed_requests_leave_the_heap_unchanged() {
    let mut allocator = Allocator::<32>::new();
    let before = headers(&allocator);
    assert!(allocator.allocate(29, 1).is_none());
    assert!(allocator.allocate(8, 64).is_none());
    assert_eq!(headers(&allocator), before);
}

#[test]
fn adapter_reports_free_errors() {
    let mut allocator = Allocator::<32>::new();
    let p = allocator.allocate(4, 4).unwrap();
    assert!(allocator.dealloc(p, 4, 4).is_ok());
    assert_eq!(allocator.dealloc(p, 4, 4), Err(FreeError::DoubleFreeDetected));
    assert_eq!(allocator.dealloc(1000, 4, 4), Err(FreeError::AllocationNotFound));
}
