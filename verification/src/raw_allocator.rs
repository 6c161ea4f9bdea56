//! The raw allocator: byte-count requests served over the buffer.
//!
//! Allocation does a best-fit scan over the free records and splits the
//! chosen record when the split leaves room for a follower header; `free`
//! locates the record whose payload holds the given offset, flips it back to
//! free and absorbs a free right neighbour. Alignment is not handled here:
//! every payload starts right after a 4-byte-aligned header.

use crate::buffer::{entry_at, lemma_entry_at_frame, lemma_parse_agree, lemma_reaches_aligned,
    lemma_records_decompose, lemma_suffix_agree, lemma_upto_snoc, lemma_wf_along,
    lemma_wf_chained, lemma_wf_compose,
    records_from, records_upto, reaches, rec_at, recs_chained, size_at, wf_from, Buffer, Rec,
    MAX_CAPACITY};
use crate::entry::{Entry, State};
use vstd::prelude::*;

verus! {

/// An error reported by `free`.
#[derive(Clone, Copy, PartialEq, Eq, Structural, Debug)]
pub enum FreeError {
    /// The offset lies in a record that is already free.
    DoubleFreeDetected,
    /// The offset lies in no record's payload.
    AllocationNotFound,
}

/// `n` rounded up to the next multiple of the 4-byte header granularity.
pub open spec fn round_up4(n: int) -> int {
    ((n + 3) / 4) * 4
}

/// Record `j` can serve a (rounded) request of `n` bytes: it is free and
/// large enough.
pub open spec fn is_candidate(recs: Seq<Rec>, n: int, j: int) -> bool {
    &&& 0 <= j < recs.len()
    &&& recs[j].state is Free
    &&& recs[j].size >= n
}

/// Record `i` is the record that best-fit selection picks for a (rounded)
/// request of `n` bytes: a candidate of minimal size, and the first such.
pub open spec fn is_best_fit(recs: Seq<Rec>, n: int, i: int) -> bool {
    &&& is_candidate(recs, n, i)
    &&& forall|j: int| #[trigger] is_candidate(recs, n, j) ==> recs[i].size <= recs[j].size
    &&& forall|j: int|
        0 <= j < i && #[trigger] is_candidate(recs, n, j) ==> recs[i].size < recs[j].size
}

/// The record list after allocating `n` (rounded) bytes out of record `i`.
///
/// The chosen record becomes used. When there is room for a follower header
/// the rest of the record becomes a new free record right after the used
/// part; a last record additionally refuses a follower of size zero, whose
/// header would sit unreachably at the very end of the buffer, and instead
/// absorbs the whole record into the used part — the tail-allocation case.
pub open spec fn split_records(recs: Seq<Rec>, i: int, n: int) -> Seq<Rec> {
    let o = recs[i].off;
    let s = recs[i].size;
    let can_split = if i == recs.len() - 1 {
        n + 8 <= s
    } else {
        n + 4 <= s
    };
    if can_split {
        recs.update(i, Rec { off: o, state: State::Used, size: n }).insert(
            i + 1,
            Rec { off: o + 4 + n, state: State::Free, size: s - n - 4 },
        )
    } else {
        recs.update(i, Rec { off: o, state: State::Used, size: s })
    }
}

/// Offset `p` lies in the payload of record `j`.
pub open spec fn find_in(recs: Seq<Rec>, p: int, j: int) -> bool {
    &&& 0 <= j < recs.len()
    &&& recs[j].off + 4 <= p < recs[j].off + 4 + recs[j].size
}

/// The record list after freeing record `j`: the record becomes free and,
/// when its right neighbour is itself free, absorbs that neighbour whole —
/// header bytes included. A free left neighbour stays separate.
pub open spec fn free_records(recs: Seq<Rec>, j: int) -> Seq<Rec> {
    let r = recs[j];
    if j + 1 < recs.len() && recs[j + 1].state is Free {
        recs.update(
            j,
            Rec { off: r.off, state: State::Free, size: r.size + 4 + recs[j + 1].size },
        ).remove(j + 1)
    } else {
        recs.update(j, Rec { off: r.off, state: State::Free, size: r.size })
    }
}

/// Concatenation facts used to relate a parsed suffix to `skip` of the
/// whole record list without large extensionality steps.
proof fn lemma_add_skip<A>(a: Seq<A>, b: Seq<A>)
    ensures
        (a + b).skip(a.len() as int) == b,
        (a + b).take(a.len() as int) == a,
{
    assert((a + b).skip(a.len() as int) =~= b);
    assert((a + b).take(a.len() as int) =~= a);
}

/// Concatenation is associative.
proof fn lemma_add_assoc<A>(a: Seq<A>, b: Seq<A>, c: Seq<A>)
    ensures
        (a + b) + c == a + (b + c),
{
    assert((a + b) + c =~= a + (b + c));
}

/// Two records in front of a tail, as one concatenation.
proof fn lemma_add_pair<A>(a: A, b: A, c: Seq<A>)
    ensures
        seq![a] + (seq![b] + c) == seq![a, b] + c,
{
    assert(seq![a] + (seq![b] + c) =~= seq![a, b] + c);
}

/// Dropping elements twice drops their sum.
proof fn lemma_skip_skip<A>(s: Seq<A>, m: int, n: int)
    requires
        0 <= m,
        0 <= n,
        m + n <= s.len(),
    ensures
        s.skip(m).skip(n) == s.skip(m + n),
{
    assert(s.skip(m).skip(n) =~= s.skip(m + n));
}

/// Taking one element more appends that element.
proof fn lemma_take_push<A>(s: Seq<A>, k: int)
    requires
        0 <= k < s.len(),
    ensures
        s.take(k + 1) == s.take(k).push(s[k]),
{
    assert(s.take(k + 1) =~= s.take(k).push(s[k]));
}

/// The two trivial ends of a walk.
proof fn lemma_seq_trivia<A>(s: Seq<A>)
    ensures
        s.take(0) == Seq::<A>::empty(),
        s + Seq::<A>::empty() == s,
        s.skip(0) == s,
{
    assert(s.take(0) =~= Seq::<A>::empty());
    assert(s + Seq::<A>::empty() =~= s);
    assert(s.skip(0) =~= s);
}

/// Splicing one replacement record into a record list.
proof fn lemma_splice1(recs: Seq<Rec>, i: int, a: Rec)
    requires
        0 <= i < recs.len(),
    ensures
        recs.take(i) + seq![a] + recs.skip(i + 1) == recs.update(i, a),
{
    assert(recs.take(i) + seq![a] + recs.skip(i + 1) =~= recs.update(i, a));
}

/// Splicing two replacement records, in place of one, into a record list.
proof fn lemma_splice2(recs: Seq<Rec>, i: int, a: Rec, b: Rec)
    requires
        0 <= i < recs.len(),
    ensures
        recs.take(i) + seq![a, b] + recs.skip(i + 1) == recs.update(i, a).insert(i + 1, b),
{
    assert(recs.take(i) + seq![a, b] + recs.skip(i + 1) =~= recs.update(i, a).insert(i + 1, b));
}

/// Splicing one replacement record, in place of two, into a record list.
proof fn lemma_splice_merge(recs: Seq<Rec>, i: int, a: Rec)
    requires
        0 <= i,
        i + 1 < recs.len(),
    ensures
        recs.take(i) + seq![a] + recs.skip(i + 2) == recs.update(i, a).remove(i + 1),
{
    assert(recs.take(i) + seq![a] + recs.skip(i + 2) =~= recs.update(i, a).remove(i + 1));
}

/// The record walk of the search loops: at a reachable offset `cur` with
/// `k` records walked over, the buffer's record `k` starts at `cur`, and the
/// walk can take one more step.
proof fn lemma_walk_position(b1: Seq<u8>, cur: int, k: int)
    requires
        wf_from(b1, 0),
        reaches(b1, 0, cur),
        records_upto(b1, 0, cur) == records_from(b1, 0).take(k),
        0 <= k <= records_from(b1, 0).len(),
        cur < b1.len(),
    ensures
        wf_from(b1, cur),
        cur % 4 == 0,
        cur + 4 <= b1.len(),
        k < records_from(b1, 0).len(),
        records_from(b1, 0)[k] == rec_at(b1, cur),
        size_at(b1, cur) % 4 == 0,
        cur + 4 + size_at(b1, cur) <= b1.len(),
        reaches(b1, 0, cur + 4 + size_at(b1, cur)),
        records_upto(b1, 0, cur + 4 + size_at(b1, cur)) == records_from(b1, 0).take(k + 1),
        records_from(b1, cur) == records_from(b1, 0).skip(k),
{
    let recs = records_from(b1, 0);
    lemma_wf_along(b1, 0, cur);
    lemma_reaches_aligned(b1, 0, cur);
    lemma_records_decompose(b1, 0, cur);
    lemma_add_skip(recs.take(k), records_from(b1, cur));
    assert(records_from(b1, cur) == recs.skip(k));
    assert(records_from(b1, cur) == seq![rec_at(b1, cur)] + records_from(
        b1,
        cur + 4 + size_at(b1, cur),
    ));
    assert(records_from(b1, cur)[0] == rec_at(b1, cur));
    assert(recs.skip(k)[0] == recs[k]);
    lemma_upto_snoc(b1, 0, cur);
    lemma_take_push(recs, k);
}

/// At the end of the record walk every record has been walked over.
proof fn lemma_walk_end(b1: Seq<u8>, k: int)
    requires
        wf_from(b1, 0),
        reaches(b1, 0, b1.len() as int),
        records_upto(b1, 0, b1.len() as int) == records_from(b1, 0).take(k),
        0 <= k <= records_from(b1, 0).len(),
    ensures
        k == records_from(b1, 0).len(),
{
    let recs = records_from(b1, 0);
    lemma_records_decompose(b1, 0, b1.len() as int);
    assert(records_from(b1, b1.len() as int) == Seq::<Rec>::empty());
    lemma_seq_trivia(recs.take(k));
    assert(recs == recs.take(k));
    assert(recs.take(k).len() == k);
}

/// A request larger than the whole buffer has no candidate record.
pub proof fn lemma_oversize_no_candidate(recs: Seq<Rec>, cap: int, n: int)
    requires
        recs_chained(recs, 0, cap),
        n > cap,
    ensures
        forall|j: int| !is_candidate(recs, round_up4(n), j),
{
    assert forall|j: int| !is_candidate(recs, round_up4(n), j) by {
        if 0 <= j < recs.len() {
            assert(recs[j].off + 4 + recs[j].size <= cap);
            assert(round_up4(n) >= n);
        }
    }
}

/// A record ends exactly at the buffer's end when and only when it is the
/// last record.
proof fn lemma_last_record_iff(recs: Seq<Rec>, cap: int, ti: int)
    requires
        recs_chained(recs, 0, cap),
        0 <= ti < recs.len(),
    ensures
        (recs[ti].off + 4 + recs[ti].size == cap) <==> (ti == recs.len() - 1),
{
    if ti < recs.len() - 1 {
        assert(recs[ti + 1].off == recs[ti].off + 4 + recs[ti].size);
        assert(recs[ti + 1].off + 4 + recs[ti + 1].size <= cap);
    }
}

/// Recomposition after a mutation: byte images `b1` and `b2` agree up to
/// the start `t` of record `ti`, and from `t` the new image parses as `mid`
/// followed by the old records after the `cut` replaced ones. Then the whole
/// new image parses as the old records with `cut` of them replaced by `mid`.
proof fn lemma_recompose(
    b1: Seq<u8>,
    b2: Seq<u8>,
    t: int,
    ti: int,
    cut: int,
    mid: Seq<Rec>,
    tend: int,
)
    requires
        wf_from(b1, 0),
        reaches(b1, 0, t),
        records_upto(b1, 0, t) == records_from(b1, 0).take(ti),
        0 <= ti,
        1 <= cut <= 2,
        ti + cut <= records_from(b1, 0).len(),
        records_from(b1, 0)[ti].off == t,
        tend == records_from(b1, 0)[ti + cut - 1].off + 4 + records_from(b1, 0)[ti + cut - 1].size,
        b2.len() == b1.len(),
        forall|i: int| 0 <= i < t ==> b1[i] == b2[i],
        records_from(b2, t) == mid + records_from(b1, tend),
        wf_from(b2, t),
    ensures
        wf_from(b2, 0),
        records_from(b2, 0) == records_from(b1, 0).take(ti) + mid + records_from(b1, 0).skip(
            ti + cut,
        ),
{
    let recs = records_from(b1, 0);
    lemma_wf_along(b1, 0, t);
    lemma_records_decompose(b1, 0, t);
    lemma_add_skip(recs.take(ti), records_from(b1, t));
    assert(records_from(b1, t) == recs.skip(ti));
    assert(records_from(b1, t).len() > 0);
    let t1 = t + 4 + size_at(b1, t);
    assert(records_from(b1, t) == seq![rec_at(b1, t)] + records_from(b1, t1));
    assert(records_from(b1, t)[0] == rec_at(b1, t));
    assert(recs.skip(ti)[0] == recs[ti]);
    assert(rec_at(b1, t) == recs[ti]);
    lemma_add_skip(seq![rec_at(b1, t)], records_from(b1, t1));
    lemma_skip_skip(recs, ti, 1);
    assert(records_from(b1, t1) == recs.skip(ti + 1));
    if cut == 2 {
        assert(records_from(b1, t1).len() > 0);
        let t2 = t1 + 4 + size_at(b1, t1);
        assert(records_from(b1, t1) == seq![rec_at(b1, t1)] + records_from(b1, t2));
        assert(records_from(b1, t1)[0] == rec_at(b1, t1));
        assert(recs.skip(ti + 1)[0] == recs[ti + 1]);
        assert(rec_at(b1, t1) == recs[ti + 1]);
        assert(t2 == tend);
        lemma_add_skip(seq![rec_at(b1, t1)], records_from(b1, t2));
        lemma_skip_skip(recs, ti + 1, 1);
        assert(records_from(b1, tend) == recs.skip(ti + 2));
    } else {
        assert(t1 == tend);
    }
    lemma_parse_agree(b1, b2, 0, t);
    assert forall|kk: int| 0 <= kk < records_upto(b2, 0, t).len() implies (
    #[trigger] records_upto(b2, 0, t)[kk]).size % 4 == 0 by {
        assert(records_upto(b2, 0, t)[kk] == records_upto(b1, 0, t)[kk]);
    }
    lemma_wf_compose(b2, 0, t);
    lemma_records_decompose(b2, 0, t);
    lemma_add_assoc(recs.take(ti), mid, records_from(b1, tend));
    assert(records_from(b2, 0) == recs.take(ti) + mid + recs.skip(ti + cut));
}

/// Byte image `b2` is `b1` with the record at `t` split into a used record
/// of size `nr` and a free follower holding the rest.
proof fn lemma_alloc_split(b1: Seq<u8>, b2: Seq<u8>, ti: int, t: int, s: int, nr: int)
    requires
        wf_from(b1, 0),
        reaches(b1, 0, t),
        records_upto(b1, 0, t) == records_from(b1, 0).take(ti),
        0 <= ti < records_from(b1, 0).len(),
        records_from(b1, 0)[ti].off == t,
        records_from(b1, 0)[ti].size == s,
        b2.len() == b1.len(),
        0 <= nr,
        nr % 4 == 0,
        nr + 4 <= s,
        ti == records_from(b1, 0).len() - 1 ==> nr + 8 <= s,
        entry_at(b2, t) == (Entry { state: State::Used, size: nr as u32 }),
        entry_at(b2, t + 4 + nr) == (Entry { state: State::Free, size: (s - nr - 4) as u32 }),
        forall|i: int|
            0 <= i < b1.len() && !(t <= i < t + 4) && !(t + 4 + nr <= i < t + 8 + nr) ==> b1[i]
                == b2[i],
    ensures
        wf_from(b2, 0),
        records_from(b2, 0) == split_records(records_from(b1, 0), ti, nr),
{
    let recs = records_from(b1, 0);
    let fi = t + 4 + nr;
    let t4s = t + 4 + s;
    lemma_wf_along(b1, 0, t);
    lemma_records_decompose(b1, 0, t);
    lemma_add_skip(recs.take(ti), records_from(b1, t));
    assert(records_from(b1, t) == recs.skip(ti));
    assert(records_from(b1, t).len() > 0);
    assert(records_from(b1, t) == seq![rec_at(b1, t)] + records_from(
        b1,
        t + 4 + size_at(b1, t),
    ));
    assert(records_from(b1, t)[0] == rec_at(b1, t));
    assert(recs.skip(ti)[0] == recs[ti]);
    assert(size_at(b1, t) == s);
    assert(wf_from(b1, t4s));
    let used_rec = Rec { off: t, state: State::Used, size: nr };
    let free_rec = Rec { off: fi, state: State::Free, size: s - nr - 4 };
    lemma_suffix_agree(b1, b2, t4s);
    assert(rec_at(b2, t) == used_rec);
    assert(rec_at(b2, fi) == free_rec);
    assert(records_from(b2, t4s) == records_from(b1, t4s));
    assert(records_from(b2, fi) == seq![rec_at(b2, fi)] + records_from(b2, t4s));
    assert(records_from(b2, t) == seq![rec_at(b2, t)] + records_from(b2, fi));
    lemma_add_pair(used_rec, free_rec, records_from(b1, t4s));
    assert(records_from(b2, t) == seq![used_rec, free_rec] + records_from(b1, t4s));
    assert(wf_from(b2, fi));
    assert(wf_from(b2, t));
    lemma_recompose(b1, b2, t, ti, 1, seq![used_rec, free_rec], t4s);
    lemma_splice2(recs, ti, used_rec, free_rec);
}

/// Byte image `b2` is `b1` with the whole record at `t` marked used: the
/// case where no follower header fits, or where a last record would be left
/// with a zero-sized follower.
proof fn lemma_alloc_absorb(b1: Seq<u8>, b2: Seq<u8>, ti: int, t: int, s: int, nr: int)
    requires
        wf_from(b1, 0),
        reaches(b1, 0, t),
        records_upto(b1, 0, t) == records_from(b1, 0).take(ti),
        0 <= ti < records_from(b1, 0).len(),
        records_from(b1, 0)[ti].off == t,
        records_from(b1, 0)[ti].size == s,
        b2.len() == b1.len(),
        0 <= nr <= s,
        ti == records_from(b1, 0).len() - 1 ==> !(nr + 8 <= s),
        ti < records_from(b1, 0).len() - 1 ==> !(nr + 4 <= s),
        entry_at(b2, t) == (Entry { state: State::Used, size: s as u32 }),
        forall|i: int| 0 <= i < b1.len() && !(t <= i < t + 4) ==> b1[i] == b2[i],
    ensures
        wf_from(b2, 0),
        records_from(b2, 0) == split_records(records_from(b1, 0), ti, nr),
{
    let recs = records_from(b1, 0);
    let t4s = t + 4 + s;
    lemma_wf_along(b1, 0, t);
    lemma_records_decompose(b1, 0, t);
    lemma_add_skip(recs.take(ti), records_from(b1, t));
    assert(records_from(b1, t) == recs.skip(ti));
    assert(records_from(b1, t).len() > 0);
    assert(records_from(b1, t) == seq![rec_at(b1, t)] + records_from(
        b1,
        t + 4 + size_at(b1, t),
    ));
    assert(records_from(b1, t)[0] == rec_at(b1, t));
    assert(recs.skip(ti)[0] == recs[ti]);
    assert(size_at(b1, t) == s);
    assert(wf_from(b1, t4s));
    let used_rec = Rec { off: t, state: State::Used, size: s };
    lemma_suffix_agree(b1, b2, t4s);
    assert(rec_at(b2, t) == used_rec);
    assert(records_from(b2, t4s) == records_from(b1, t4s));
    assert(records_from(b2, t) == seq![rec_at(b2, t)] + records_from(b2, t4s));
    assert(wf_from(b2, t));
    lemma_recompose(b1, b2, t, ti, 1, seq![used_rec], t4s);
    lemma_splice1(recs, ti, used_rec);
}

/// Byte image `b2` is `b1` with the record at `t` flipped to free, its
/// right neighbour being used or absent.
proof fn lemma_free_simple(b1: Seq<u8>, b2: Seq<u8>, ti: int, t: int, s: int)
    requires
        wf_from(b1, 0),
        reaches(b1, 0, t),
        records_upto(b1, 0, t) == records_from(b1, 0).take(ti),
        0 <= ti < records_from(b1, 0).len(),
        records_from(b1, 0)[ti].off == t,
        records_from(b1, 0)[ti].size == s,
        ti + 1 < records_from(b1, 0).len() ==> !(records_from(b1, 0)[ti + 1].state is Free),
        b2.len() == b1.len(),
        entry_at(b2, t) == (Entry { state: State::Free, size: s as u32 }),
        forall|i: int| 0 <= i < b1.len() && !(t <= i < t + 4) ==> b1[i] == b2[i],
    ensures
        wf_from(b2, 0),
        records_from(b2, 0) == free_records(records_from(b1, 0), ti),
{
    let recs = records_from(b1, 0);
    let t4s = t + 4 + s;
    lemma_wf_along(b1, 0, t);
    lemma_records_decompose(b1, 0, t);
    lemma_add_skip(recs.take(ti), records_from(b1, t));
    assert(records_from(b1, t) == recs.skip(ti));
    assert(records_from(b1, t).len() > 0);
    assert(records_from(b1, t) == seq![rec_at(b1, t)] + records_from(
        b1,
        t + 4 + size_at(b1, t),
    ));
    assert(records_from(b1, t)[0] == rec_at(b1, t));
    assert(recs.skip(ti)[0] == recs[ti]);
    assert(size_at(b1, t) == s);
    assert(wf_from(b1, t4s));
    let free_rec = Rec { off: t, state: State::Free, size: s };
    lemma_suffix_agree(b1, b2, t4s);
    assert(rec_at(b2, t) == free_rec);
    assert(records_from(b2, t4s) == records_from(b1, t4s));
    assert(records_from(b2, t) == seq![rec_at(b2, t)] + records_from(b2, t4s));
    assert(wf_from(b2, t));
    lemma_recompose(b1, b2, t, ti, 1, seq![free_rec], t4s);
    lemma_splice1(recs, ti, free_rec);
}

/// Byte image `b2` is `b1` with the record at `t` flipped to free and its
/// free right neighbour absorbed whole.
proof fn lemma_free_merge(b1: Seq<u8>, b2: Seq<u8>, ti: int, t: int, s: int, s2: int)
    requires
        wf_from(b1, 0),
        reaches(b1, 0, t),
        records_upto(b1, 0, t) == records_from(b1, 0).take(ti),
        0 <= ti,
        ti + 1 < records_from(b1, 0).len(),
        records_from(b1, 0)[ti].off == t,
        records_from(b1, 0)[ti].size == s,
        records_from(b1, 0)[ti + 1].state is Free,
        records_from(b1, 0)[ti + 1].size == s2,
        s + 4 + s2 < 0x8000_0000,
        b2.len() == b1.len(),
        entry_at(b2, t) == (Entry { state: State::Free, size: (s + 4 + s2) as u32 }),
        forall|i: int| 0 <= i < b1.len() && !(t <= i < t + 4) ==> b1[i] == b2[i],
    ensures
        wf_from(b2, 0),
        records_from(b2, 0) == free_records(records_from(b1, 0), ti),
{
    let recs = records_from(b1, 0);
    let t4s = t + 4 + s;
    let tend = t4s + 4 + s2;
    lemma_wf_along(b1, 0, t);
    lemma_records_decompose(b1, 0, t);
    lemma_add_skip(recs.take(ti), records_from(b1, t));
    assert(records_from(b1, t) == recs.skip(ti));
    assert(records_from(b1, t).len() > 0);
    assert(records_from(b1, t) == seq![rec_at(b1, t)] + records_from(
        b1,
        t + 4 + size_at(b1, t),
    ));
    assert(records_from(b1, t)[0] == rec_at(b1, t));
    assert(recs.skip(ti)[0] == recs[ti]);
    assert(size_at(b1, t) == s);
    assert(wf_from(b1, t4s));
    lemma_add_skip(seq![rec_at(b1, t)], records_from(b1, t4s));
    lemma_skip_skip(recs, ti, 1);
    assert(records_from(b1, t4s) == recs.skip(ti + 1));
    assert(records_from(b1, t4s).len() > 0);
    assert(records_from(b1, t4s) == seq![rec_at(b1, t4s)] + records_from(
        b1,
        t4s + 4 + size_at(b1, t4s),
    ));
    assert(records_from(b1, t4s)[0] == rec_at(b1, t4s));
    assert(recs.skip(ti + 1)[0] == recs[ti + 1]);
    assert(rec_at(b1, t4s) == recs[ti + 1]);
    assert(recs[ti + 1].off == t4s);
    assert(size_at(b1, t4s) == s2);
    assert(wf_from(b1, tend));
    let merged_rec = Rec { off: t, state: State::Free, size: s + 4 + s2 };
    lemma_suffix_agree(b1, b2, tend);
    assert(rec_at(b2, t) == merged_rec);
    assert(records_from(b2, tend) == records_from(b1, tend));
    assert(records_from(b2, t) == seq![rec_at(b2, t)] + records_from(b2, tend));
    assert(wf_from(b2, t));
    lemma_recompose(b1, b2, t, ti, 2, seq![merged_rec], tend);
    lemma_splice_merge(recs, ti, merged_rec);
}

/// A raw memory allocator for contiguous byte ranges without alignment
/// handling. Payloads are always 4-byte aligned.
pub struct RawAllocator<const N: usize> {
    /// The backing memory; exposed so that callers can inspect the records.
    pub buffer: Buffer<N>,
}

impl<const N: usize> RawAllocator<N> {
    /// The allocator's standing invariant: a well-formed buffer of at least
    /// the minimum useful capacity.
    pub open spec fn wf(&self) -> bool {
        &&& self.buffer.wf()
        &&& 8 <= N as int
    }

    /// The current record list.
    pub open spec fn records(&self) -> Seq<Rec> {
        self.buffer.records()
    }

    /// Create a new allocator whose whole buffer is one free record.
    pub fn new() -> (r: Self)
        requires
            8 <= N,
            N % 4 == 0,
            N <= MAX_CAPACITY,
        ensures
            r.wf(),
            r.records() == seq![Rec { off: 0, state: State::Free, size: N as int - 4 }],
    {
        RawAllocator { buffer: Buffer::new() }
    }

    /// Allocate a memory block of `n` bytes and return the offset of its
    /// payload, or nothing when no free record can serve the request.
    ///
    /// The request is rounded up to a multiple of 4; the record chosen is
    /// the first smallest free record that is large enough.
    pub fn allocate(&mut self, n: usize) -> (r: Option<usize>)
        requires
            old(self).wf(),
        ensures
            final(self).wf(),
            match r {
                None => {
                    &&& *final(self) == *old(self)
                    &&& forall|j: int|
                        !is_candidate(old(self).records(), round_up4(n as int), j)
                },
                Some(p) => exists|i: int|
                    {
                        &&& #[trigger] is_best_fit(old(self).records(), round_up4(n as int), i)
                        &&& p == old(self).records()[i].off + 4
                        &&& final(self).records() == split_records(
                            old(self).records(),
                            i,
                            round_up4(n as int),
                        )
                    },
            },
    {
        let ghost b1 = self.buffer@;
        let ghost recs = self.buffer.records();
        proof {
            lemma_wf_chained(b1, 0);
        }
        if n > N {
            proof {
                lemma_oversize_no_candidate(recs, N as int, n as int);
            }
            return None;
        }
        let nr = (n + 3) / 4 * 4;

        let mut cur: usize = 0;
        let mut have_best: bool = false;
        let mut best_off: usize = 0;
        let mut best_size: usize = 0;
        let ghost mut k: int = 0;
        let ghost mut best_idx: int = 0;
        proof {
            assert(records_upto(b1, 0, 0) =~= recs.take(0));
        }
        while cur < N
            invariant
                self.buffer.wf(),
                *self == *old(self),
                b1 == self.buffer@,
                recs == records_from(b1, 0),
                n <= N,
                nr as int == round_up4(n as int),
                reaches(b1, 0, cur as int),
                cur as int <= N as int,
                0 <= k <= recs.len(),
                records_upto(b1, 0, cur as int) == recs.take(k),
                have_best ==> {
                    &&& 0 <= best_idx < k
                    &&& is_candidate(recs, nr as int, best_idx)
                    &&& recs[best_idx].off == best_off as int
                    &&& recs[best_idx].size == best_size as int
                    &&& reaches(b1, 0, best_off as int)
                    &&& records_upto(b1, 0, best_off as int) == recs.take(best_idx)
                    &&& forall|j: int|
                        0 <= j < k && #[trigger] is_candidate(recs, nr as int, j)
                            ==> best_size as int <= recs[j].size
                    &&& forall|j: int|
                        0 <= j < best_idx && #[trigger] is_candidate(recs, nr as int, j) ==> (
                        best_size as int) < recs[j].size
                },
                !have_best ==> forall|j: int| 0 <= j < k ==> !is_candidate(recs, nr as int, j),
            decreases N as int - cur as int,
        {
            proof {
                lemma_walk_position(b1, cur as int, k);
            }
            let e = self.buffer.header_at(cur);
            let sz = e.size();
            if e.state() == State::Free && sz >= nr && (!have_best || sz < best_size) {
                have_best = true;
                best_off = cur;
                best_size = sz;
                proof {
                    best_idx = k;
                }
            }
            proof {
                k = k + 1;
            }
            cur = cur + 4 + sz;
        }
        proof {
            lemma_walk_end(b1, k);
        }
        if !have_best {
            return None;
        }

        let t = best_off;
        let s = best_size;
        let ghost ti = best_idx;
        proof {
            assert(is_best_fit(recs, nr as int, ti));
            lemma_last_record_iff(recs, N as int, ti);
            lemma_wf_along(b1, 0, t as int);
            lemma_reaches_aligned(b1, 0, t as int);
        }
        let last = t + 4 + s == N;
        let can_split = if last {
            nr + 8 <= s
        } else {
            nr + 4 <= s
        };
        if can_split {
            self.buffer.write_header(t, Entry::used(nr));
            let ghost bmid = self.buffer@;
            let f = t + 4 + nr;
            self.buffer.write_header(f, Entry::free(s - nr - 4));
            proof {
                lemma_entry_at_frame(bmid, self.buffer@, t as int);
                lemma_alloc_split(b1, self.buffer@, ti, t as int, s as int, nr as int);
                assert(is_best_fit(old(self).records(), round_up4(n as int), ti));
                assert(t + 4 == old(self).records()[ti].off + 4);
                assert(self.records() == split_records(
                    old(self).records(),
                    ti,
                    round_up4(n as int),
                ));
            }
            Some(t + 4)
        } else {
            self.buffer.write_header(t, Entry::used(s));
            proof {
                lemma_alloc_absorb(b1, self.buffer@, ti, t as int, s as int, nr as int);
                assert(is_best_fit(old(self).records(), round_up4(n as int), ti));
                assert(t + 4 == old(self).records()[ti].off + 4);
                assert(self.records() == split_records(
                    old(self).records(),
                    ti,
                    round_up4(n as int),
                ));
            }
            Some(t + 4)
        }
    }

    /// Release the memory block whose payload holds the offset `ptr`.
    ///
    /// The record found is flipped back to free; a free record immediately
    /// to its right is absorbed into it. An offset inside an already-free
    /// record reports a double free; one inside no payload at all reports
    /// that the allocation was not found. Either error leaves the buffer
    /// unchanged.
    pub fn free(&mut self, ptr: usize) -> (r: Result<(), FreeError>)
        requires
            old(self).wf(),
        ensures
            final(self).wf(),
            match r {
                Ok(_) => exists|j: int|
                    {
                        &&& #[trigger] find_in(old(self).records(), ptr as int, j)
                        &&& old(self).records()[j].state is Used
                        &&& final(self).records() == free_records(old(self).records(), j)
                    },
                Err(FreeError::DoubleFreeDetected) => {
                    &&& *final(self) == *old(self)
                    &&& exists|j: int|
                        #[trigger] find_in(old(self).records(), ptr as int, j) && old(
                            self,
                        ).records()[j].state is Free
                },
                Err(FreeError::AllocationNotFound) => {
                    &&& *final(self) == *old(self)
                    &&& forall|j: int| !find_in(old(self).records(), ptr as int, j)
                },
            },
    {
        let ghost b1 = self.buffer@;
        let ghost recs = self.buffer.records();
        proof {
            lemma_wf_chained(b1, 0);
            assert(records_upto(b1, 0, 0) =~= recs.take(0));
        }
        let mut cur: usize = 0;
        let mut found: bool = false;
        let mut sz: usize = 0;
        let mut is_free: bool = false;
        let ghost mut k: int = 0;
        while !found && cur < N
            invariant
                self.buffer.wf(),
                *self == *old(self),
                b1 == self.buffer@,
                recs == records_from(b1, 0),
                reaches(b1, 0, cur as int),
                cur as int <= N as int,
                0 <= k <= recs.len(),
                records_upto(b1, 0, cur as int) == recs.take(k),
                forall|j: int| 0 <= j < k ==> !find_in(recs, ptr as int, j),
                found ==> {
                    &&& k < recs.len()
                    &&& find_in(recs, ptr as int, k)
                    &&& recs[k].off == cur as int
                    &&& recs[k].size == sz as int
                    &&& (is_free <==> recs[k].state is Free)
                },
            decreases N as int - cur as int, (if found { 0int } else { 1int }),
        {
            proof {
                lemma_walk_position(b1, cur as int, k);
            }
            let e = self.buffer.header_at(cur);
            sz = e.size();
            if cur + 4 <= ptr && ptr < cur + 4 + sz {
                found = true;
                is_free = e.state() == State::Free;
            } else {
                proof {
                    k = k + 1;
                }
                cur = cur + 4 + sz;
            }
        }
        if !found {
            proof {
                lemma_walk_end(b1, k);
            }
            return Err(FreeError::AllocationNotFound);
        }
        if is_free {
            proof {
                assert(find_in(old(self).records(), ptr as int, k));
            }
            return Err(FreeError::DoubleFreeDetected);
        }

        proof {
            lemma_walk_position(b1, cur as int, k);
        }
        let next = cur + 4 + sz;
        let mut merged_size = sz;
        if next < N {
            proof {
                lemma_add_skip(seq![rec_at(b1, cur as int)], records_from(b1, next as int));
                lemma_skip_skip(recs, k, 1);
                assert(records_from(b1, next as int) == recs.skip(k + 1));
                assert(wf_from(b1, next as int));
                assert(records_from(b1, next as int).len() > 0);
                assert(records_from(b1, next as int) == seq![rec_at(b1, next as int)]
                    + records_from(b1, next as int + 4 + size_at(b1, next as int)));
                assert(records_from(b1, next as int)[0] == rec_at(b1, next as int));
                assert(recs.skip(k + 1)[0] == recs[k + 1]);
                assert(recs[k + 1] == rec_at(b1, next as int));
                assert(next % 4 == 0);
                assert(next + 4 <= N);
            }
            let fe = self.buffer.header_at(next);
            if fe.state() == State::Free {
                merged_size = sz + 4 + fe.size();
            }
        } else {
            proof {
                assert(records_from(b1, next as int) == Seq::<Rec>::empty());
                lemma_seq_trivia(seq![rec_at(b1, cur as int)]);
                assert(records_from(b1, cur as int).len() == 1);
                assert(k == recs.len() - 1);
            }
        }
        self.buffer.write_header(cur, Entry::free(merged_size));
        proof {
            if merged_size != sz {
                lemma_free_merge(
                    b1,
                    self.buffer@,
                    k,
                    cur as int,
                    sz as int,
                    merged_size as int - sz as int - 4,
                );
            } else {
                lemma_free_simple(b1, self.buffer@, k, cur as int, sz as int);
            }
            assert(find_in(old(self).records(), ptr as int, k));
            assert(self.records() == free_records(old(self).records(), k));
        }
        Ok(())
    }
}

} // verus!