//! Crate-level laws: properties of the allocator stated and proved once,
//! over the same record model that the operation contracts use.

use crate::buffer::{lemma_chained_mono, lemma_chained_sum, lemma_wf_chained, records_from,
    recs_chained, sum_extents, wf_from, Rec};
use crate::entry::State;
use crate::raw_allocator::{find_in, free_records, is_best_fit, is_candidate, round_up4,
    split_records};
use vstd::prelude::*;

verus! {

/// Law: in every well-formed buffer the records cover the buffer exactly,
/// so the header and payload lengths add up to the buffer length; every
/// record starts at a 4-byte-aligned offset inside the buffer and has a
/// size that is a multiple of 4; and the first record starts at offset 0.
pub proof fn lemma_record_structure(bytes: Seq<u8>)
    requires
        wf_from(bytes, 0),
    ensures
        sum_extents(records_from(bytes, 0)) == bytes.len(),
        forall|k: int|
            0 <= k < records_from(bytes, 0).len() ==> {
                let r = #[trigger] records_from(bytes, 0)[k];
                &&& r.off % 4 == 0
                &&& 0 <= r.off
                &&& r.off + 4 + r.size <= bytes.len()
                &&& r.size % 4 == 0
                &&& r.size >= 0
            },
        bytes.len() >= 4 ==> records_from(bytes, 0).len() > 0 && records_from(bytes, 0)[0].off
            == 0,
{
    lemma_wf_chained(bytes, 0);
    lemma_chained_sum(records_from(bytes, 0), 0, bytes.len() as int);
}

/// Two adjacent free records fused into one: the left record keeps its
/// offset and absorbs the right one, header bytes included.
pub open spec fn fuse(a: Rec, b: Rec) -> Rec {
    Rec { off: a.off, state: State::Free, size: a.size + 4 + b.size }
}

/// A record list with every run of adjacent free records fused into a
/// single free record.
pub open spec fn merge_frees(recs: Seq<Rec>) -> Seq<Rec>
    decreases recs.len(),
{
    if recs.len() == 0 {
        recs
    } else if recs.len() >= 2 && recs[0].state is Free && recs[1].state is Free {
        merge_frees(seq![fuse(recs[0], recs[1])] + recs.skip(2))
    } else {
        seq![recs[0]] + merge_frees(recs.skip(1))
    }
}

/// One fuse step applied at position `i`.
pub open spec fn merge_at(recs: Seq<Rec>, i: int) -> Seq<Rec> {
    recs.update(i, fuse(recs[i], recs[i + 1])).remove(i + 1)
}

/// Fusing one adjacent free pair anywhere does not change the fully merged
/// record list.
pub proof fn lemma_merge_at_commutes(recs: Seq<Rec>, i: int)
    requires
        0 <= i,
        i + 1 < recs.len(),
        recs[i].state is Free,
        recs[i + 1].state is Free,
    ensures
        merge_frees(merge_at(recs, i)) == merge_frees(recs),
    decreases recs.len(),
{
    let m = merge_at(recs, i);
    if i == 0 {
        assert(merge_frees(recs) == merge_frees(seq![fuse(recs[0], recs[1])] + recs.skip(2)));
        assert(m =~= seq![fuse(recs[0], recs[1])] + recs.skip(2));
    } else if recs[0].state is Free && recs[1].state is Free {
        let x = seq![fuse(recs[0], recs[1])] + recs.skip(2);
        assert(merge_frees(recs) == merge_frees(x));
        if i == 1 {
            let y = seq![fuse(x[0], x[1])] + x.skip(2);
            assert(x[0].state is Free && x[1].state is Free);
            assert(merge_frees(x) == merge_frees(y));
            assert(m[0].state is Free && m[1].state is Free);
            let z = seq![fuse(m[0], m[1])] + m.skip(2);
            assert(merge_frees(m) == merge_frees(z));
            assert(z =~= y);
        } else {
            assert(m[0].state is Free && m[1].state is Free);
            let w = seq![fuse(m[0], m[1])] + m.skip(2);
            assert(merge_frees(m) == merge_frees(w));
            assert(x[i - 1] == recs[i]);
            assert(x[i] == recs[i + 1]);
            lemma_merge_at_commutes(x, i - 1);
            assert(w =~= merge_at(x, i - 1));
        }
    } else {
        assert(merge_frees(recs) == seq![recs[0]] + merge_frees(recs.skip(1)));
        assert(m[0] == recs[0]);
        if i == 1 {
            assert(!(recs[0].state is Free));
        }
        assert(!(m.len() >= 2 && m[0].state is Free && m[1].state is Free));
        assert(merge_frees(m) == seq![m[0]] + merge_frees(m.skip(1)));
        assert(recs.skip(1)[i - 1] == recs[i]);
        assert(recs.skip(1)[i] == recs[i + 1]);
        lemma_merge_at_commutes(recs.skip(1), i - 1);
        assert(m.skip(1) =~= merge_at(recs.skip(1), i - 1));
    }
}

/// Law: allocating out of the best-fit record and then freeing the block
/// again restores the record list, up to fusing adjacent free records.
///
/// `n` is the rounded request, at least one header unit so that the block's
/// payload is nonempty and its offset identifies it.
pub proof fn lemma_alloc_free_round_trip(recs: Seq<Rec>, n: int, i: int)
    requires
        is_best_fit(recs, n, i),
        n % 4 == 0,
        4 <= n,
    ensures
        ({
            let a = split_records(recs, i, n);
            &&& find_in(a, recs[i].off + 4, i)
            &&& a[i].state is Used
            &&& merge_frees(free_records(a, i)) == merge_frees(recs)
        }),
{
    let a = split_records(recs, i, n);
    let o = recs[i].off;
    let s = recs[i].size;
    let can_split = if i == recs.len() - 1 {
        n + 8 <= s
    } else {
        n + 4 <= s
    };
    assert(recs[i] == Rec { off: o, state: State::Free, size: s });
    if can_split {
        let f = free_records(a, i);
        assert(a[i + 1].state is Free);
        assert(f =~= recs.update(i, Rec { off: o, state: State::Free, size: s }));
        assert(recs.update(i, recs[i]) =~= recs);
        assert(f == recs);
    } else {
        assert(a =~= recs.update(i, Rec { off: o, state: State::Used, size: s }));
        let f = free_records(a, i);
        if i + 1 < a.len() && a[i + 1].state is Free {
            assert(a[i + 1] == recs[i + 1]);
            assert(f =~= merge_at(recs, i));
            lemma_merge_at_commutes(recs, i);
        } else {
            assert(f =~= recs.update(i, Rec { off: o, state: State::Free, size: s }));
            assert(recs.update(i, recs[i]) =~= recs);
            assert(f == recs);
        }
    }
}

/// Law: freeing a used block succeeds exactly once. After the free, the
/// same offset still identifies the same record, which is now free, so a
/// second free of that offset reports a double free.
pub proof fn lemma_free_exactly_once(recs: Seq<Rec>, p: int, j: int)
    requires
        find_in(recs, p, j),
        recs[j].state is Used,
        j + 1 < recs.len() ==> recs[j + 1].size >= 0,
    ensures
        ({
            let f = free_records(recs, j);
            &&& find_in(f, p, j)
            &&& f[j].state is Free
        }),
{
    let f = free_records(recs, j);
    if j + 1 < recs.len() && recs[j + 1].state is Free {
        let m = Rec {
            off: recs[j].off,
            state: State::Free,
            size: recs[j].size + 4 + recs[j + 1].size,
        };
        assert(f == recs.update(j, m).remove(j + 1));
        assert(f.len() == recs.len() - 1);
        assert(f[j] == m);
    } else {
        assert(f[j] == Rec { off: recs[j].off, state: State::Free, size: recs[j].size });
    }
}

/// Law: an offset lies in the payload of at most one record of a chained
/// record list, so the record that a free finds is the only possible one.
pub proof fn lemma_find_in_unique(recs: Seq<Rec>, cap: int, p: int, j1: int, j2: int)
    requires
        recs_chained(recs, 0, cap),
        find_in(recs, p, j1),
        find_in(recs, p, j2),
    ensures
        j1 == j2,
{
    if j1 < j2 {
        lemma_chained_mono(recs, 0, cap, j1, j2);
    } else if j2 < j1 {
        lemma_chained_mono(recs, 0, cap, j2, j1);
    }
}

/// Law: allocating the whole heap of a fresh buffer succeeds as a tail
/// allocation and exhausts the heap: afterwards no request of any size has
/// a candidate record, until something is freed.
pub proof fn lemma_exhaustion(cap: int)
    requires
        8 <= cap,
        cap % 4 == 0,
    ensures
        ({
            let fresh = seq![Rec { off: 0, state: State::Free, size: cap - 4 }];
            let full = split_records(fresh, 0, cap - 4);
            &&& is_best_fit(fresh, cap - 4, 0)
            &&& full == seq![Rec { off: 0, state: State::Used, size: cap - 4 }]
            &&& forall|n: int, j: int| !is_candidate(full, n, j)
        }),
{
    let fresh = seq![Rec { off: 0, state: State::Free, size: cap - 4 }];
    let full = split_records(fresh, 0, cap - 4);
    assert(is_candidate(fresh, cap - 4, 0));
    assert(full =~= seq![Rec { off: 0, state: State::Used, size: cap - 4 }]);
}

/// The size of the largest free record, or -1 when no record is free.
pub open spec fn max_free_size(recs: Seq<Rec>) -> int
    decreases recs.len(),
{
    if recs.len() == 0 {
        -1
    } else {
        let rest = max_free_size(recs.skip(1));
        if recs[0].state is Free && recs[0].size > rest {
            recs[0].size
        } else {
            rest
        }
    }
}

/// Every free record's size is bounded by the largest free size.
pub proof fn lemma_max_free_size_bounds(recs: Seq<Rec>)
    ensures
        forall|j: int|
            0 <= j < recs.len() && (#[trigger] recs[j]).state is Free ==> recs[j].size
                <= max_free_size(recs),
    decreases recs.len(),
{
    if recs.len() > 0 {
        lemma_max_free_size_bounds(recs.skip(1));
        assert forall|j: int|
            0 <= j < recs.len() && (#[trigger] recs[j]).state is Free implies recs[j].size
            <= max_free_size(recs) by {
            if j > 0 {
                assert(recs.skip(1)[j - 1] == recs[j]);
            }
        }
    }
}

/// Law: a request whose rounded size exceeds the largest free record has no
/// candidate, so allocation returns nothing.
pub proof fn lemma_oversized_request_fails(recs: Seq<Rec>, n: int)
    requires
        round_up4(n) > max_free_size(recs),
    ensures
        forall|j: int| !is_candidate(recs, round_up4(n), j),
{
    lemma_max_free_size_bounds(recs);
}

/// Law: tail allocation. When the best-fit record is the last one and a
/// split would leave a follower with zero payload, the used record absorbs
/// the whole free size instead.
pub proof fn lemma_tail_allocation(recs: Seq<Rec>, n: int)
    requires
        recs.len() > 0,
        n + 4 == recs[recs.len() - 1].size,
    ensures
        split_records(recs, recs.len() - 1, n) == recs.update(
            recs.len() - 1,
            Rec {
                off: recs[recs.len() - 1].off,
                state: State::Used,
                size: recs[recs.len() - 1].size,
            },
        ),
{
}

} // verus!
