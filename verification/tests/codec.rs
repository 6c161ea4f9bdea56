//! Tests of the header codec: constructors, observers and the raw-byte
//! round trips.

use emballoc::entry::{Entry, State};

#[test]
fn constructors_and_observers() {
    let f = Entry::free(28);
    assert!(f.state() == State::Free);
    assert_eq!(f.size(), 28);

    let u = Entry::used(1024);
    assert!(u.state() == State::Used);
    assert_eq!(u.size(), 1024);

    assert!(Entry::free(0).size() == 0);
    assert!(Entry::used(0).state() == State::Used);
}

#[test]
fn entry_round_trip() {
    let cases: [(bool, usize); 8] = [
        (false, 0),
        (true, 0),
        (false, 4),
        (true, 4),
        (false, 28),
        (true, 1024),
        (false, 0x7FFF_FFFC),
        (true, 0x7FFF_FFFC),
    ];
    for (used, size) in cases {
        let e = if used { Entry::used(size) } else { Entry::free(size) };
        let round = Entry::from_raw(e.as_raw());
        assert!(round == e);
        assert_eq!(round.size(), size);
        assert!(round.state() == if used { State::Used } else { State::Free });
    }
}

#[test]
fn raw_round_trip() {
    let cases: [[u8; 4]; 5] = [
        [0, 0, 0, 0],
        [28, 0, 0, 0],
        [255, 255, 255, 255],
        [1, 2, 3, 4],
        [0, 0, 0, 0x80],
    ];
    for raw in cases {
        let e = Entry::from_raw(raw);
        assert_eq!(e.as_raw(), raw);
    }
}

#[test]
fn entry_equality_is_value_equality() {
    assert!(Entry::free(8) == Entry::free(8));
    assert!(Entry::free(8) != Entry::used(8));
    assert!(Entry::free(8) != Entry::free(12));
}
