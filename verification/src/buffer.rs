//! The heap buffer: `N` bytes holding a packed sequence of records.
//!
//! Each record is a 4-byte header followed by exactly `header.size` payload
//! bytes; the records tile the buffer completely. The parse functions below
//! read that structure straight off the bytes, so every contract in the crate
//! speaks about the byte image itself and not about shadow bookkeeping.

use crate::entry::{entry_of_word, fits, lemma_entry_round_trip, spec_as_raw, spec_from_raw, word_of,
    Entry, State};
use vstd::prelude::*;
use vstd::slice::slice_subrange;

verus! {

/// Capacity ceiling. Keeping the buffer below a gigabyte keeps every offset
/// computation, including the alignment adapter's over-allocation, free of
/// arithmetic overflow even on 32-bit targets.
pub const MAX_CAPACITY: usize = 0x4000_0000;

/// An offset into the buffer that is known to point at the start of a record.
///
/// Values are produced by the buffer's own iteration; the contracts of the
/// operations that consume one ask for `Buffer::valid_offset`, which is
/// exactly what the iteration establishes.
#[derive(Clone, Copy, PartialEq, Eq, Structural, Debug)]
pub struct ValidatedOffset(pub usize);

/// One record of the buffer, as specification data: its header offset, its
/// state and its payload size.
pub ghost struct Rec {
    pub off: int,
    pub state: State,
    pub size: int,
}

/// The header entry whose four bytes start at offset `o`.
///
/// Kept opaque: proofs above the byte level treat the decoded entry as an
/// atomic value and never look at the word arithmetic below.
#[verifier::opaque]
pub open spec fn entry_at(bytes: Seq<u8>, o: int) -> Entry {
    entry_of_word(word_of(bytes[o], bytes[o + 1], bytes[o + 2], bytes[o + 3]))
}

/// The payload size of the record whose header starts at offset `o`.
pub open spec fn size_at(bytes: Seq<u8>, o: int) -> int {
    entry_at(bytes, o).size as int
}

/// The record whose header starts at offset `o`.
pub open spec fn rec_at(bytes: Seq<u8>, o: int) -> Rec {
    Rec { off: o, state: entry_at(bytes, o).state, size: size_at(bytes, o) }
}

/// All records from offset `o` to the end of the buffer, in offset order.
/// A tail that would run past the end is cut short; under `wf_from` that
/// never happens.
pub open spec fn records_from(bytes: Seq<u8>, o: int) -> Seq<Rec>
    decreases bytes.len() - o,
{
    if o < 0 || o + 4 > bytes.len() {
        Seq::empty()
    } else {
        let next = o + 4 + size_at(bytes, o);
        if next > bytes.len() {
            seq![rec_at(bytes, o)]
        } else {
            seq![rec_at(bytes, o)] + records_from(bytes, next)
        }
    }
}

/// Well-formedness of the byte image from offset `o` on: stepping from
/// record to record lands exactly on the end of the buffer, and every record
/// size is a multiple of 4.
pub open spec fn wf_from(bytes: Seq<u8>, o: int) -> bool
    decreases bytes.len() - o,
{
    if o == bytes.len() {
        true
    } else if o < 0 || o + 4 > bytes.len() {
        false
    } else {
        let sz = size_at(bytes, o);
        let next = o + 4 + sz;
        if next > bytes.len() {
            false
        } else {
            sz % 4 == 0 && wf_from(bytes, next)
        }
    }
}

/// Offset `t` is reachable from offset `o` by whole record steps.
pub open spec fn reaches(bytes: Seq<u8>, o: int, t: int) -> bool
    decreases t - o,
{
    if o == t {
        true
    } else if o < 0 || o >= t || o + 4 > bytes.len() {
        false
    } else {
        let next = o + 4 + size_at(bytes, o);
        if next > t {
            false
        } else {
            reaches(bytes, next, t)
        }
    }
}

/// The records between offsets `o` and `t`; meaningful when `t` is reachable
/// from `o`.
pub open spec fn records_upto(bytes: Seq<u8>, o: int, t: int) -> Seq<Rec>
    decreases t - o,
{
    if o < 0 || o >= t || o + 4 > bytes.len() {
        Seq::empty()
    } else {
        let next = o + 4 + size_at(bytes, o);
        if next > t {
            seq![rec_at(bytes, o)]
        } else {
            seq![rec_at(bytes, o)] + records_upto(bytes, next, t)
        }
    }
}

/// Reachability composes: a step list from `o` to `m` followed by one from
/// `m` to `t` is one from `o` to `t`.
pub proof fn lemma_reaches_trans(bytes: Seq<u8>, o: int, m: int, t: int)
    requires
        reaches(bytes, o, m),
        reaches(bytes, m, t),
    ensures
        reaches(bytes, o, t),
    decreases m - o,
{
    if o != m {
        let next = o + 4 + size_at(bytes, o);
        lemma_reaches_trans(bytes, next, m, t);
    }
}

/// Splitting the record list at a reachable offset `t`.
pub proof fn lemma_records_decompose(bytes: Seq<u8>, o: int, t: int)
    requires
        reaches(bytes, o, t),
        t <= bytes.len(),
    ensures
        records_from(bytes, o) == records_upto(bytes, o, t) + records_from(bytes, t),
    decreases t - o,
{
    if o == t {
        assert(records_upto(bytes, o, t) + records_from(bytes, t) =~= records_from(bytes, o));
    } else {
        let next = o + 4 + size_at(bytes, o);
        lemma_records_decompose(bytes, next, t);
        assert(records_upto(bytes, o, t) + records_from(bytes, t) =~= records_from(bytes, o));
    }
}

/// Two byte images that agree on `[o, t)` parse to the same records there.
pub proof fn lemma_parse_agree(b1: Seq<u8>, b2: Seq<u8>, o: int, t: int)
    requires
        b1.len() == b2.len(),
        forall|i: int| o <= i < t ==> b1[i] == b2[i],
        reaches(b1, o, t),
    ensures
        reaches(b2, o, t),
        records_upto(b2, o, t) == records_upto(b1, o, t),
    decreases t - o,
{
    if o != t {
        let next = o + 4 + size_at(b1, o);
        assert(entry_at(b2, o) == entry_at(b1, o)) by {
            reveal(entry_at);
        }
        lemma_parse_agree(b1, b2, next, t);
        assert(records_upto(b2, o, t) =~= records_upto(b1, o, t));
    }
}

/// Two byte images that agree from `o` to the end parse to the same records
/// and are equally well formed there.
pub proof fn lemma_suffix_agree(b1: Seq<u8>, b2: Seq<u8>, o: int)
    requires
        b1.len() == b2.len(),
        forall|i: int| o <= i < b1.len() ==> b1[i] == b2[i],
    ensures
        records_from(b2, o) == records_from(b1, o),
        wf_from(b2, o) == wf_from(b1, o),
    decreases b1.len() - o,
{
    if o < 0 || o + 4 > b1.len() {
        assert(records_from(b2, o) =~= records_from(b1, o));
    } else {
        assert(entry_at(b2, o) == entry_at(b1, o)) by {
            reveal(entry_at);
        }
        let next = o + 4 + size_at(b1, o);
        if next > b1.len() {
            assert(records_from(b2, o) =~= records_from(b1, o));
        } else {
            lemma_suffix_agree(b1, b2, next);
            assert(records_from(b2, o) =~= records_from(b1, o));
        }
    }
}

/// Well-formedness carries from a reachable offset back to its start when
/// every record walked over has a size that is a multiple of 4.
pub proof fn lemma_wf_compose(bytes: Seq<u8>, o: int, t: int)
    requires
        reaches(bytes, o, t),
        t <= bytes.len(),
        wf_from(bytes, t),
        forall|k: int|
            0 <= k < records_upto(bytes, o, t).len() ==> (#[trigger] records_upto(bytes, o, t)[k]).size
                % 4 == 0,
    ensures
        wf_from(bytes, o),
    decreases t - o,
{
    if o != t {
        let next = o + 4 + size_at(bytes, o);
        assert(records_upto(bytes, o, t)[0] == rec_at(bytes, o));
        assert forall|k: int| 0 <= k < records_upto(bytes, next, t).len() implies (
        #[trigger] records_upto(bytes, next, t)[k]).size % 4 == 0 by {
            assert(records_upto(bytes, o, t)[k + 1] == records_upto(bytes, next, t)[k]);
        }
        lemma_wf_compose(bytes, next, t);
    }
}

/// From a well-formed start every reachable offset is itself well formed,
/// and the records walked over have sizes that are multiples of 4.
pub proof fn lemma_wf_along(bytes: Seq<u8>, o: int, t: int)
    requires
        reaches(bytes, o, t),
        wf_from(bytes, o),
    ensures
        wf_from(bytes, t),
        forall|k: int|
            0 <= k < records_upto(bytes, o, t).len() ==> (#[trigger] records_upto(bytes, o, t)[k]).size
                % 4 == 0,
    decreases t - o,
{
    if o != t {
        let next = o + 4 + size_at(bytes, o);
        lemma_wf_along(bytes, next, t);
        assert forall|k: int| 0 <= k < records_upto(bytes, o, t).len() implies (
        #[trigger] records_upto(bytes, o, t)[k]).size % 4 == 0 by {
            if k == 0 {
                assert(records_upto(bytes, o, t)[0] == rec_at(bytes, o));
            } else {
                assert(records_upto(bytes, o, t)[k] == records_upto(bytes, next, t)[k - 1]);
            }
        }
    }
}

/// Offsets reached from an aligned, well-formed start are aligned.
pub proof fn lemma_reaches_aligned(bytes: Seq<u8>, o: int, t: int)
    requires
        reaches(bytes, o, t),
        wf_from(bytes, o),
        o % 4 == 0,
    ensures
        t % 4 == 0,
    decreases t - o,
{
    if o != t {
        let next = o + 4 + size_at(bytes, o);
        lemma_reaches_aligned(bytes, next, t);
    }
}

/// The entry at `o` depends only on the four bytes at `o`.
pub proof fn lemma_entry_at_frame(b1: Seq<u8>, b2: Seq<u8>, o: int)
    requires
        0 <= o,
        o + 4 <= b1.len(),
        b2.len() == b1.len(),
        forall|i: int| o <= i < o + 4 ==> b1[i] == b2[i],
    ensures
        entry_at(b2, o) == entry_at(b1, o),
{
    reveal(entry_at);
}

/// A record list is chained between `start` and `end` when the records sit
/// back to back: the first at `start`, each next one right after its
/// predecessor, and the last ending exactly at `end`.
pub open spec fn recs_chained(recs: Seq<Rec>, start: int, end: int) -> bool {
    &&& (if recs.len() == 0 {
        start == end
    } else {
        recs[0].off == start && recs[recs.len() - 1].off + 4 + recs[recs.len() - 1].size == end
    })
    &&& forall|k: int|
        0 <= k < recs.len() ==> {
            let r = #[trigger] recs[k];
            &&& r.size >= 0
            &&& r.size % 4 == 0
            &&& r.off % 4 == 0
            &&& start <= r.off
            &&& r.off + 4 + r.size <= end
        }
    &&& forall|k: int|
        0 <= k < recs.len() - 1 ==> (#[trigger] recs[k + 1]).off == recs[k].off + 4 + recs[k].size
}

/// The number of buffer bytes that a record list covers: a 4-byte header
/// plus the payload, for each record.
pub open spec fn sum_extents(recs: Seq<Rec>) -> int
    decreases recs.len(),
{
    if recs.len() == 0 {
        0
    } else {
        4 + recs[0].size + sum_extents(recs.skip(1))
    }
}

/// A well-formed byte image parses to a chained record list covering the
/// whole region from `o` to the end.
pub proof fn lemma_wf_chained(bytes: Seq<u8>, o: int)
    requires
        wf_from(bytes, o),
        0 <= o,
        o % 4 == 0,
    ensures
        recs_chained(records_from(bytes, o), o, bytes.len() as int),
    decreases bytes.len() - o,
{
    let recs = records_from(bytes, o);
    if o == bytes.len() {
    } else {
        let next = o + 4 + size_at(bytes, o);
        lemma_wf_chained(bytes, next);
        let tail = records_from(bytes, next);
        assert(recs == seq![rec_at(bytes, o)] + tail);
        assert forall|k: int| 0 <= k < recs.len() - 1 implies (#[trigger] recs[k + 1]).off == recs[k].off
            + 4 + recs[k].size by {
            assert(recs[k + 1] == tail[k]);
            if k >= 1 {
                assert(recs[k] == tail[k - 1]);
                assert(tail[(k - 1) + 1].off == tail[k - 1].off + 4 + tail[k - 1].size);
            } else {
                assert(recs[0] == rec_at(bytes, o));
            }
        }
    }
}

/// In a chained record list the records lie in offset order and do not
/// overlap.
pub proof fn lemma_chained_mono(recs: Seq<Rec>, start: int, end: int, k1: int, k2: int)
    requires
        recs_chained(recs, start, end),
        0 <= k1 < k2 < recs.len(),
    ensures
        recs[k1].off + 4 + recs[k1].size <= recs[k2].off,
    decreases k2 - k1,
{
    assert(recs[k1 + 1].off == recs[k1].off + 4 + recs[k1].size);
    if k1 + 1 < k2 {
        lemma_chained_mono(recs, start, end, k1 + 1, k2);
    }
}

/// Law: a chained record list covers its region exactly, so the header and
/// payload lengths of all records add up to the region's length.
pub proof fn lemma_chained_sum(recs: Seq<Rec>, start: int, end: int)
    requires
        recs_chained(recs, start, end),
    ensures
        sum_extents(recs) == end - start,
    decreases recs.len(),
{
    if recs.len() == 0 {
    } else {
        let tail = recs.skip(1);
        let start2 = start + 4 + recs[0].size;
        assert forall|k: int| 0 <= k < tail.len() implies {
            let r = #[trigger] tail[k];
            &&& r.size >= 0
            &&& r.size % 4 == 0
            &&& r.off % 4 == 0
            &&& start2 <= r.off
            &&& r.off + 4 + r.size <= end
        } by {
            assert(tail[k] == recs[k + 1]);
            if k + 1 > 0 {
                lemma_chained_mono(recs, start, end, 0, k + 1);
            }
        }
        assert forall|k: int| 0 <= k < tail.len() - 1 implies (#[trigger] tail[k + 1]).off == tail[k].off
            + 4 + tail[k].size by {
            assert(tail[k + 1] == recs[k + 2]);
            assert(tail[k] == recs[k + 1]);
            assert(recs[(k + 1) + 1].off == recs[k + 1].off + 4 + recs[k + 1].size);
        }
        if tail.len() > 0 {
            assert(tail[0] == recs[0int + 1]);
            assert(recs[0int + 1].off == recs[0].off + 4 + recs[0].size);
            assert(tail[tail.len() - 1] == recs[recs.len() - 1]);
        }
        assert(recs_chained(tail, start2, end));
        lemma_chained_sum(tail, start2, end);
    }
}

/// Extending a walk by the single record that starts at its end.
pub proof fn lemma_upto_snoc(bytes: Seq<u8>, o: int, t: int)
    requires
        reaches(bytes, o, t),
        0 <= t,
        t + 4 <= bytes.len(),
        t + 4 + size_at(bytes, t) <= bytes.len(),
    ensures
        reaches(bytes, o, t + 4 + size_at(bytes, t)),
        records_upto(bytes, o, t + 4 + size_at(bytes, t)) == records_upto(bytes, o, t).push(
            rec_at(bytes, t),
        ),
    decreases t - o,
{
    let t2 = t + 4 + size_at(bytes, t);
    if o == t {
        assert(reaches(bytes, t2, t2));
        assert(records_upto(bytes, t2, t2) =~= Seq::<Rec>::empty());
        assert(records_upto(bytes, o, t2) =~= seq![rec_at(bytes, t)] + records_upto(bytes, t2, t2));
        assert(records_upto(bytes, o, t2) =~= records_upto(bytes, o, t).push(rec_at(bytes, t)));
    } else {
        let next = o + 4 + size_at(bytes, o);
        lemma_upto_snoc(bytes, next, t);
        assert(records_upto(bytes, o, t2) =~= records_upto(bytes, o, t).push(rec_at(bytes, t)));
    }
}

/// The buffer memory backing the heap: `N` bytes, parsed as records.
pub struct Buffer<const N: usize> {
    data: Vec<u8>,
}

impl<const N: usize> View for Buffer<N> {
    type V = Seq<u8>;

    closed spec fn view(&self) -> Seq<u8> {
        self.data@
    }
}

impl<const N: usize> Buffer<N> {
    /// The buffer's standing invariant: it holds exactly `N` bytes within
    /// the supported capacity range, and the bytes parse as a packed record
    /// list that covers the buffer exactly.
    pub open spec fn wf(&self) -> bool {
        &&& self@.len() == N as int
        &&& 4 <= N as int
        &&& N as int % 4 == 0
        &&& N as int <= MAX_CAPACITY as int
        &&& wf_from(self@, 0)
    }

    /// The buffer's records, in offset order.
    pub open spec fn records(&self) -> Seq<Rec> {
        records_from(self@, 0)
    }

    /// `o` names the start of one of the buffer's records.
    pub open spec fn valid_offset(&self, o: int) -> bool {
        &&& reaches(self@, 0, o)
        &&& o < N as int
    }

    /// Create a new buffer holding a single free record that spans it.
    pub fn new() -> (r: Self)
        requires
            4 <= N,
            N % 4 == 0,
            N <= MAX_CAPACITY,
        ensures
            r.wf(),
            r.records() == seq![Rec { off: 0, state: State::Free, size: N as int - 4 }],
    {
        let data: Vec<u8> = vec![0u8; N];
        let mut buf = Buffer { data };
        buf.write_header(0, Entry::free(N - 4));
        proof {
            let b = buf@;
            assert(rec_at(b, 0) == Rec { off: 0, state: State::Free, size: N as int - 4 });
            assert(wf_from(b, N as int));
            assert(wf_from(b, 0));
            assert(records_from(b, N as int) =~= Seq::<Rec>::empty());
            assert(buf.records() =~= seq![Rec { off: 0, state: State::Free, size: N as int - 4 }]);
        }
        buf
    }

    /// Read the 4-byte header starting at `offset`.
    pub fn header_at(&self, offset: usize) -> (e: Entry)
        requires
            offset % 4 == 0,
            offset + 4 <= self@.len(),
        ensures
            e == entry_at(self@, offset as int),
            fits(e),
    {
        let raw = [
            self.data[offset],
            self.data[offset + 1],
            self.data[offset + 2],
            self.data[offset + 3],
        ];
        let e = Entry::from_raw(raw);
        proof {
            reveal(entry_at);
            assert(raw@ =~= seq![
                self@[offset as int],
                self@[offset + 1],
                self@[offset + 2],
                self@[offset + 3],
            ]);
        }
        e
    }

    /// Write the 4-byte header starting at `offset`; the rest of the buffer
    /// is untouched.
    pub fn write_header(&mut self, offset: usize, e: Entry)
        requires
            offset % 4 == 0,
            offset + 4 <= old(self)@.len(),
            fits(e),
        ensures
            final(self)@.len() == old(self)@.len(),
            forall|i: int|
                0 <= i < old(self)@.len() && !(offset <= i < offset + 4) ==> final(self)@[i]
                    == old(self)@[i],
            entry_at(final(self)@, offset as int) == e,
    {
        let raw = e.as_raw();
        self.data[offset] = raw[0];
        self.data[offset + 1] = raw[1];
        self.data[offset + 2] = raw[2];
        self.data[offset + 3] = raw[3];
        proof {
            reveal(entry_at);
            lemma_entry_round_trip(e);
            let b = self@;
            let o = offset as int;
            assert(b[o] == spec_as_raw(e)[0]);
            assert(b[o + 1] == spec_as_raw(e)[1]);
            assert(b[o + 2] == spec_as_raw(e)[2]);
            assert(b[o + 3] == spec_as_raw(e)[3]);
            assert(entry_at(b, o) == spec_from_raw(spec_as_raw(e)));
        }
    }

    /// All record offsets, for iteration in offset order.
    pub fn entries(&self) -> (r: EntryIter<'_, N>)
        ensures
            r.buffer == self,
            r.offset == 0,
    {
        EntryIter::new(self)
    }

    /// The payload bytes of the record starting at the validated offset.
    pub fn memory_of(&self, offset: ValidatedOffset) -> (r: &[u8])
        requires
            self.wf(),
            self.valid_offset(offset.0 as int),
        ensures
            r@ == self@.subrange(
                offset.0 + 4,
                offset.0 + 4 + size_at(self@, offset.0 as int),
            ),
    {
        proof {
            lemma_wf_along(self@, 0, offset.0 as int);
            lemma_reaches_aligned(self@, 0, offset.0 as int);
        }
        let e = self.header_at(offset.0);
        let start = offset.0 + 4;
        slice_subrange(self.data.as_slice(), start, start + e.size())
    }

    /// Write one byte of the record's payload. The record structure of the
    /// buffer is untouched: only payload content changes.
    pub fn write_payload(&mut self, offset: ValidatedOffset, i: usize, value: u8)
        requires
            old(self).wf(),
            old(self).valid_offset(offset.0 as int),
            i < size_at(old(self)@, offset.0 as int),
        ensures
            final(self).wf(),
            final(self)@ == old(self)@.update(offset.0 + 4 + i, value),
            final(self).records() == old(self).records(),
    {
        let ghost b1 = self@;
        let ghost t = offset.0 as int;
        proof {
            lemma_wf_along(b1, 0, t);
        }
        let idx = offset.0 + 4 + i;
        self.data[idx] = value;
        proof {
            let b2 = self@;
            let p = t + 4 + i;
            let s = size_at(b1, t);
            let next = t + 4 + s;
            assert(b2 == b1.update(p, value));
            assert(forall|j: int| 0 <= j < b1.len() && j != p ==> b1[j] == b2[j]);
            lemma_parse_agree(b1, b2, 0, t);
            lemma_suffix_agree(b1, b2, next);
            assert(entry_at(b2, t) == entry_at(b1, t)) by {
                reveal(entry_at);
            }
            assert(records_from(b2, t) =~= records_from(b1, t));
            assert(wf_from(b2, t));
            lemma_wf_compose(b2, 0, t);
            lemma_records_decompose(b1, 0, t);
            lemma_records_decompose(b2, 0, t);
            assert(records_from(b2, 0) =~= records_from(b1, 0));
        }
    }

    /// The header of the record immediately after the record at `offset`,
    /// or nothing when that record is the last one in the buffer.
    pub fn following_entry(&self, offset: ValidatedOffset) -> (r: Option<Entry>)
        requires
            self.wf(),
            self.valid_offset(offset.0 as int),
        ensures
            ({
                let next = offset.0 + 4 + size_at(self@, offset.0 as int);
                match r {
                    Some(e) => next < N as int && e == entry_at(self@, next),
                    None => next == N as int,
                }
            }),
    {
        proof {
            lemma_wf_along(self@, 0, offset.0 as int);
            lemma_reaches_aligned(self@, 0, offset.0 as int);
        }
        let e = self.header_at(offset.0);
        let next = offset.0 + 4 + e.size();
        if next < N {
            proof {
                assert(wf_from(self@, next as int));
            }
            Some(self.header_at(next))
        } else {
            None
        }
    }
}

/// An iterator over the record offsets of a buffer, front to back.
pub struct EntryIter<'a, const N: usize> {
    /// The buffer walked over.
    pub buffer: &'a Buffer<N>,
    /// The offset of the next record to hand out; `N` when the walk is done.
    pub offset: usize,
}

impl<'a, const N: usize> EntryIter<'a, N> {
    /// The iterator sits on a record boundary of a well-formed buffer.
    pub open spec fn wf(&self) -> bool {
        &&& self.buffer.wf()
        &&& reaches(self.buffer@, 0, self.offset as int)
        &&& self.offset as int <= N as int
    }

    /// Create an entry iterator over the given buffer.
    pub fn new(buffer: &'a Buffer<N>) -> (r: Self)
        ensures
            r.buffer == buffer,
            r.offset == 0,
    {
        EntryIter { buffer, offset: 0 }
    }

    /// The next record's validated offset, or nothing at the end of the
    /// buffer.
    pub fn next(&mut self) -> (r: Option<ValidatedOffset>)
        requires
            old(self).wf(),
        ensures
            final(self).wf(),
            final(self).buffer == old(self).buffer,
            match r {
                Some(v) => {
                    &&& old(self).offset < N as int
                    &&& v.0 == old(self).offset
                    &&& old(self).buffer.valid_offset(v.0 as int)
                    &&& final(self).offset as int == old(self).offset + 4 + size_at(
                        old(self).buffer@,
                        old(self).offset as int,
                    )
                },
                None => {
                    &&& old(self).offset == N as int
                    &&& final(self).offset == old(self).offset
                },
            },
    {
        if self.offset < N {
            let offset = self.offset;
            proof {
                lemma_wf_along(self.buffer@, 0, offset as int);
                lemma_reaches_aligned(self.buffer@, 0, offset as int);
            }
            let e = self.buffer.header_at(offset);
            let next = offset + 4 + e.size();
            self.offset = next;
            proof {
                assert(reaches(self.buffer@, next as int, next as int));
                assert(reaches(self.buffer@, offset as int, next as int));
                lemma_reaches_trans(self.buffer@, 0, offset as int, next as int);
            }
            Some(ValidatedOffset(offset))
        } else {
            None
        }
    }
}

} // verus!
