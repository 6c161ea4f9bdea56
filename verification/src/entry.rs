//! The header codec: a 4-byte value encoding a `(state, size)` pair.
//!
//! Every record in the heap buffer starts with such a header. The size is a
//! payload byte count; the state says whether the payload is handed out or
//! available. The on-buffer form is four little-endian bytes whose most
//! significant bit carries the state.

use vstd::prelude::*;

verus! {

/// Highest payload size that the 31-bit size field can carry while staying a
/// multiple of the header granularity.
pub const MAX_ENTRY_SIZE: usize = 0x7FFF_FFFC;

/// The observable state of a record.
#[derive(Clone, Copy, PartialEq, Eq, Structural, Debug)]
pub enum State {
    /// The record's payload is available for allocation.
    Free,
    /// The record's payload is handed out to a caller.
    Used,
}

/// A decoded record header: a state tag plus the payload size in bytes.
#[derive(Clone, Copy, PartialEq, Eq, Structural, Debug)]
pub struct Entry {
    /// Whether the record is free or used.
    pub state: State,
    /// Payload size in bytes; always below `0x8000_0000` for an entry built
    /// by this codec.
    pub size: u32,
}

/// The 32-bit word held by four little-endian raw bytes.
pub open spec fn word_of(b0: u8, b1: u8, b2: u8, b3: u8) -> int {
    b0 + 256 * b1 + 65536 * b2 + 16777216 * b3
}

/// Decoding of a 32-bit word: the top bit is the state, the rest the size.
pub open spec fn entry_of_word(w: int) -> Entry {
    if w >= 0x8000_0000 {
        Entry { state: State::Used, size: (w - 0x8000_0000) as u32 }
    } else {
        Entry { state: State::Free, size: w as u32 }
    }
}

/// Encoding of an entry as a 32-bit word.
pub open spec fn word_of_entry(e: Entry) -> int {
    e.size + if e.state is Used {
        0x8000_0000int
    } else {
        0int
    }
}

/// The four little-endian raw bytes of an entry.
pub open spec fn spec_as_raw(e: Entry) -> Seq<u8> {
    let w = word_of_entry(e);
    seq![
        (w % 256) as u8,
        ((w / 256) % 256) as u8,
        ((w / 65536) % 256) as u8,
        ((w / 16777216) % 256) as u8,
    ]
}

/// The entry held by four raw bytes.
pub open spec fn spec_from_raw(raw: Seq<u8>) -> Entry {
    entry_of_word(word_of(raw[0], raw[1], raw[2], raw[3]))
}

/// An entry whose size field fits the 31 bits that the encoding offers.
pub open spec fn fits(e: Entry) -> bool {
    0 <= e.size < 0x8000_0000
}

proof fn lemma_word_compose(w: u32)
    by (bit_vector)
    ensures
        (w % 256) + 256 * ((w / 256) % 256) + 65536 * ((w / 65536) % 256) + 16777216 * (w
            / 16777216) == w,
        w % 256 < 256,
        (w / 256) % 256 < 256,
        (w / 65536) % 256 < 256,
        w / 16777216 < 256,
{
}

proof fn lemma_word_decompose(w: u32, b0: u32, b1: u32, b2: u32, b3: u32)
    by (bit_vector)
    requires
        b0 < 256,
        b1 < 256,
        b2 < 256,
        b3 < 256,
        w == b0 + 256 * b1 + 65536 * b2 + 16777216 * b3,
    ensures
        w % 256 == b0,
        (w / 256) % 256 == b1,
        (w / 65536) % 256 == b2,
        w / 16777216 == b3,
{
}

/// Law: decoding the raw form of any representable entry yields that entry
/// back, whatever its state and size.
pub proof fn lemma_entry_round_trip(e: Entry)
    requires
        fits(e),
    ensures
        spec_from_raw(spec_as_raw(e)) == e,
{
    let w = word_of_entry(e);
    assert(0 <= w < 0x1_0000_0000);
    let wu = w as u32;
    lemma_word_compose(wu);
    let raw = spec_as_raw(e);
    assert(word_of(raw[0], raw[1], raw[2], raw[3]) == w);
    assert(entry_of_word(w) == e);
}

/// Law: encoding the entry held by any four raw bytes yields those bytes
/// back: the codec is a bijection between entries and 4-byte values.
pub proof fn lemma_raw_round_trip(raw: Seq<u8>)
    requires
        raw.len() == 4,
    ensures
        spec_as_raw(spec_from_raw(raw)) == raw,
{
    let w = word_of(raw[0], raw[1], raw[2], raw[3]);
    assert(0 <= w < 0x1_0000_0000);
    let wu = w as u32;
    lemma_word_decompose(wu, raw[0] as u32, raw[1] as u32, raw[2] as u32, raw[3] as u32);
    let e = entry_of_word(w);
    assert(word_of_entry(e) == w);
    assert(spec_as_raw(e) =~= raw);
}

impl Entry {
    /// Build a header for a free record of the given payload size.
    pub fn free(size: usize) -> (r: Entry)
        requires
            size % 4 == 0,
            size <= MAX_ENTRY_SIZE,
        ensures
            r == (Entry { state: State::Free, size: size as u32 }),
    {
        Entry { state: State::Free, size: size as u32 }
    }

    /// Build a header for a used record of the given payload size.
    pub fn used(size: usize) -> (r: Entry)
        requires
            size % 4 == 0,
            size <= MAX_ENTRY_SIZE,
        ensures
            r == (Entry { state: State::Used, size: size as u32 }),
    {
        Entry { state: State::Used, size: size as u32 }
    }

    /// The record's state.
    pub fn state(&self) -> (r: State)
        ensures
            r == self.state,
    {
        self.state
    }

    /// The record's payload size in bytes.
    pub fn size(&self) -> (r: usize)
        ensures
            r == self.size,
    {
        self.size as usize
    }

    /// Encode the entry as its four raw on-buffer bytes.
    pub fn as_raw(&self) -> (r: [u8; 4])
        requires
            fits(*self),
        ensures
            r@ == spec_as_raw(*self),
    {
        let w: u32 = self.size + if self.state == State::Used {
            0x8000_0000u32
        } else {
            0u32
        };
        let r = [(w % 256) as u8, ((w / 256) % 256) as u8, ((w / 65536) % 256) as u8, ((w
            / 16777216) % 256) as u8];
        proof {
            assert(w == word_of_entry(*self));
            assert(r@ =~= spec_as_raw(*self));
        }
        r
    }

    /// Decode four raw on-buffer bytes into the entry they hold.
    pub fn from_raw(raw: [u8; 4]) -> (r: Entry)
        ensures
            r == spec_from_raw(raw@),
            fits(r),
    {
        let b0 = raw[0];
        let b1 = raw[1];
        let b2 = raw[2];
        let b3 = raw[3];
        let w: u32 = b0 as u32 + (b1 as u32) * 256 + (b2 as u32) * 65536 + (b3 as u32) * 16777216;
        assert(w == word_of(b0, b1, b2, b3));
        if w >= 0x8000_0000u32 {
            Entry { state: State::Used, size: w - 0x8000_0000u32 }
        } else {
            Entry { state: State::Free, size: w }
        }
    }
}

} // verus!
