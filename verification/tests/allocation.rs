//! Workload tests: collection-style workloads, each holding a scratch
//! block from the allocator for its duration.

use emballoc::Allocator;

const HEAP_SIZE: usize = 4 * 1024 * 1024;

#[test]
fn vec() {
    let mut allocator = Allocator::<HEAP_SIZE>::new();
    let size = 4 * std::mem::size_of::<i32>();
    let align = std::mem::align_of::<i32>();
    let backing = allocator.allocate(size, align).unwrap();

    let mut v = vec![1, 2, 3];
    v.push(4);

    assert_eq!((1..=4).collect::<Vec<_>>(), v);
    assert!(allocator.dealloc(backing, size, align).is_ok());
}

#[test]
fn map_and_formatting() {
    let mut allocator = Allocator::<HEAP_SIZE>::new();
    let backing = allocator.allocate(1024, 8).unwrap();

    let mut map = std::collections::BTreeMap::new();
    map.insert(10, "Hello");
    map.insert(11, "world");
    map.insert(20, "Hallo");
    map.insert(21, "Welt");
    map.insert(-1, "english");
    map.insert(-2, "german");

    let english = format!("[{}]: {}, {}!", map[&-1], map[&10], map[&11]);
    let german = format!("[{}]: {}, {}!", map[&-2], map[&20], map[&21]);
    assert_eq!(english, "[english]: Hello, world!");
    assert_eq!(german, "[german]: Hallo, Welt!");

    assert!(allocator.dealloc(backing, 1024, 8).is_ok());
}
