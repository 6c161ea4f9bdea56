//! Tests of the buffer: header access, record iteration, payload access.

use emballoc::buffer::{Buffer, ValidatedOffset};
use emballoc::entry::Entry;

#[test]
fn empty_allocator() {
    let buffer = Buffer::<32>::new();
    let expected = Entry::free(32 - 4);
    let actual = buffer.header_at(0);
    assert!(actual == expected);
}

#[test]
fn entry_iter() {
    let buffer = Buffer::<32>::new();
    let mut iter = buffer.entries();
    assert!(iter.next() == Some(ValidatedOffset(0)));
    assert!(iter.next() == None);

    let mut buffer = Buffer::<32>::new();
    buffer.write_header(0, Entry::free(4));
    buffer.write_header(8, Entry::used(4));
    buffer.write_header(16, Entry::free(12));
    let mut iter = buffer.entries();
    assert!(iter.next() == Some(ValidatedOffset(0)));
    assert!(iter.next() == Some(ValidatedOffset(8)));
    assert!(iter.next() == Some(ValidatedOffset(16)));
    assert!(iter.next() == None);
}

#[test]
fn indexing() {
    let mut buffer = Buffer::<32>::new();
    buffer.write_header(8, Entry::used(4));

    assert!(buffer.header_at(8) == Entry::used(4));
    buffer.write_header(8, Entry::free(12));
    assert!(buffer.header_at(8) == Entry::free(12));
}

#[test]
fn following_entry() {
    let mut buffer = Buffer::<20>::new();
    buffer.write_header(0, Entry::used(4));
    buffer.write_header(8, Entry::used(8));

    let entry = buffer.following_entry(ValidatedOffset(0)).unwrap();
    assert!(entry == Entry::used(8));
    assert!(buffer.following_entry(ValidatedOffset(8)).is_none());
}

#[test]
fn memory_of() {
    let mut buffer = Buffer::<20>::new();
    buffer.write_header(0, Entry::used(4));

    let memory = buffer.memory_of(ValidatedOffset(0));
    assert_eq!(memory.len(), 4);
}

#[test]
fn payload_writes_leave_records_alone() {
    let mut buffer = Buffer::<20>::new();
    buffer.write_header(0, Entry::used(4));
    buffer.write_header(8, Entry::used(8));

    buffer.write_payload(ValidatedOffset(0), 0, 0xAB);
    buffer.write_payload(ValidatedOffset(0), 3, 0xCD);

    let memory = buffer.memory_of(ValidatedOffset(0));
    assert_eq!(memory, &[0xAB, 0, 0, 0xCD]);

    assert!(buffer.header_at(0) == Entry::used(4));
    assert!(buffer.header_at(8) == Entry::used(8));
    let mut iter = buffer.entries();
    assert!(iter.next() == Some(ValidatedOffset(0)));
    assert!(iter.next() == Some(ValidatedOffset(8)));
    assert!(iter.next() == None);
}
