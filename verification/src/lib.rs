//! A fixed-capacity heap allocator over a single byte buffer.
//!
//! The buffer holds a packed sequence of records, each a 4-byte header
//! followed by its payload. Allocation is a best-fit scan over the free
//! records; release flips a record back to free and coalesces it with a free
//! right neighbour. The `Allocator` in this module wraps the raw byte-count
//! interface with an alignment adapter that serves `(size, alignment)`
//! requests.
//!
//! All addressing is by byte offsets into the buffer. A host that places the
//! buffer at an address aligned to the largest alignment it requests can use
//! an offset as the distance from that base address.

pub mod buffer;
pub mod entry;
pub mod laws;
pub mod raw_allocator;

use crate::buffer::{Rec, MAX_CAPACITY};
use crate::entry::State;
use crate::raw_allocator::{find_in, free_records, is_best_fit, is_candidate, round_up4,
    split_records, FreeError, RawAllocator};
use vstd::prelude::*;

verus! {

/// `a` is a power of two.
pub open spec fn is_power_of_two(a: int) -> bool
    decreases a,
{
    if a <= 0 {
        false
    } else if a == 1 {
        true
    } else {
        a % 2 == 0 && is_power_of_two(a / 2)
    }
}

/// The byte count handed to the raw allocator for a `(size, alignment)`
/// request: alignments up to the header alignment come for free, larger
/// ones are bought by over-allocation.
pub open spec fn adjusted_request(size: int, align: int) -> int {
    if align <= 4 {
        size
    } else {
        size + align - 4
    }
}

/// The smallest multiple of `align` that is at least `p`.
pub open spec fn align_up(p: int, align: int) -> int {
    ((p + align - 1) / align) * align
}

/// A power of two that is at least 4 is a multiple of 4.
proof fn lemma_pow2_mod4(a: int)
    requires
        is_power_of_two(a),
        a >= 4,
    ensures
        a % 4 == 0,
{
    let h = a / 2;
    assert(a % 2 == 0 && is_power_of_two(h));
    vstd::arithmetic::div_mod::lemma_fundamental_div_mod(a, 2);
    assert(a == 2 * h);
    assert(h >= 2);
    assert(h % 2 == 0);
    let q = h / 2;
    vstd::arithmetic::div_mod::lemma_fundamental_div_mod(h, 2);
    assert(h == 2 * q);
    assert(a == q * 4);
    vstd::arithmetic::div_mod::lemma_mod_multiples_basic(q, 4);
}

/// What rounding up to a multiple of `align` does.
proof fn lemma_align_up(p: int, align: int)
    requires
        0 <= p,
        1 <= align,
    ensures
        p <= align_up(p, align) < p + align,
        align_up(p, align) % align == 0,
{
    let x = p + align - 1;
    vstd::arithmetic::div_mod::lemma_fundamental_div_mod(x, align);
    vstd::arithmetic::div_mod::lemma_mod_bound(x, align);
    assert((x / align) * align == align * (x / align)) by (nonlinear_arith);
    assert(align_up(p, align) == x - x % align);
    vstd::arithmetic::div_mod::lemma_mod_multiples_basic(x / align, align);
}

/// A value that is a multiple of `align` is a multiple of 4 when `align` is.
proof fn lemma_mod4_of_aligned(p: int, align: int)
    requires
        1 <= align,
        align % 4 == 0,
        p % align == 0,
        0 <= p,
    ensures
        p % 4 == 0,
{
    let q = p / align;
    vstd::arithmetic::div_mod::lemma_fundamental_div_mod(p, align);
    assert(p == align * q);
    let m = align / 4;
    vstd::arithmetic::div_mod::lemma_fundamental_div_mod(align, 4);
    assert(align == 4 * m);
    assert(p == (m * q) * 4) by (nonlinear_arith)
        requires
            p == align * q,
            align == 4 * m,
    ;
    vstd::arithmetic::div_mod::lemma_mod_multiples_basic(m * q, 4);
}

/// Where the adapter's aligned offset lands inside the payload that starts
/// at `q`.
proof fn lemma_adapter_alignment(q: int, align: int)
    requires
        0 <= q,
        q % 4 == 0,
        is_power_of_two(align),
    ensures
        align <= 4 ==> align_up(q, align) == q,
        align > 4 ==> align % 4 == 0 && q <= align_up(q, align) <= q + align - 4,
        align_up(q, align) % align == 0,
        align_up(q, align) % 4 == 0,
{
    assert(1 <= align);
    lemma_align_up(q, align);
    let up = align_up(q, align);
    if align <= 4 {
        assert(align == 1 || align == 2 || align == 4);
        vstd::arithmetic::div_mod::lemma_fundamental_div_mod(q, 4);
        let c = q / 4;
        assert(q == (2 * c) * 2);
        vstd::arithmetic::div_mod::lemma_mod_multiples_basic(2 * c, 2);
        vstd::arithmetic::div_mod::lemma_mod_bound(q, 1);
        assert(q % align == 0);
        vstd::arithmetic::div_mod::lemma_fundamental_div_mod(up, align);
        vstd::arithmetic::div_mod::lemma_fundamental_div_mod(q, align);
        let a = up / align;
        let b = q / align;
        assert(up == align * a && q == align * b);
        assert(0 <= align * a - align * b < align);
        assert(a == b) by (nonlinear_arith)
            requires
                0 <= align * a - align * b < align,
                1 <= align,
        ;
        assert(up == q);
        assert(up % 4 == 0);
    } else {
        lemma_pow2_mod4(align);
        lemma_mod4_of_aligned(up, align);
        assert(up - q < align);
        assert((up - q) % 4 == 0) by {
            vstd::arithmetic::div_mod::lemma_mod_adds(up - q, q, 4);
        }
        assert(up - q <= align - 4);
    }
}

/// The memory allocator: the raw best-fit allocator behind an alignment
/// adapter. `N` is the heap capacity in bytes.
pub struct Allocator<const N: usize> {
    /// The wrapped raw allocator; exposed so that hosts and tests can
    /// inspect the record structure.
    pub raw: RawAllocator<N>,
}

impl<const N: usize> Allocator<N> {
    /// The allocator's standing invariant.
    pub open spec fn wf(&self) -> bool {
        self.raw.wf()
    }

    /// The current record list of the backing buffer.
    pub open spec fn records(&self) -> Seq<Rec> {
        self.raw.records()
    }

    /// Create a new allocator. The whole heap is one free record.
    pub fn new() -> (r: Self)
        requires
            8 <= N,
            N % 4 == 0,
            N <= MAX_CAPACITY,
        ensures
            r.wf(),
            r.records() == seq![Rec { off: 0, state: State::Free, size: N as int - 4 }],
    {
        Allocator { raw: RawAllocator::new() }
    }

    /// Allocate `size` bytes at an offset that is a multiple of `align`.
    ///
    /// A zero-sized request is served by a well-aligned nonzero sentinel
    /// offset without touching the heap; the sentinel must never be handed
    /// to `dealloc` with a nonzero size. Otherwise the raw allocator serves
    /// an over-allocated request and the adapter returns the first aligned
    /// offset inside the chosen record's payload.
    pub fn allocate(&mut self, size: usize, align: usize) -> (r: Option<usize>)
        requires
            old(self).wf(),
            is_power_of_two(align as int),
        ensures
            final(self).wf(),
            size == 0 ==> r == Some(align) && *final(self) == *old(self),
            size > 0 ==> match r {
                None => {
                    &&& *final(self) == *old(self)
                    &&& forall|j: int|
                        !is_candidate(
                            old(self).records(),
                            round_up4(adjusted_request(size as int, align as int)),
                            j,
                        )
                },
                Some(p) => {
                    &&& p % align == 0
                    &&& 4 <= p
                    &&& exists|i: int|
                        {
                            &&& #[trigger] is_best_fit(
                                old(self).records(),
                                round_up4(adjusted_request(size as int, align as int)),
                                i,
                            )
                            &&& final(self).records() == split_records(
                                old(self).records(),
                                i,
                                round_up4(adjusted_request(size as int, align as int)),
                            )
                            &&& p == align_up(old(self).records()[i].off + 4, align as int)
                            &&& old(self).records()[i].off + 4 <= p
                            &&& p + size <= old(self).records()[i].off + 4
                                + final(self).records()[i].size
                        }
                },
            },
    {
        if size == 0 {
            return Some(align);
        }
        if size > N || align > N {
            proof {
                crate::buffer::lemma_wf_chained(self.raw.buffer@, 0);
                if align > N {
                    lemma_pow2_mod4(align as int);
                }
                crate::raw_allocator::lemma_oversize_no_candidate(
                    self.records(),
                    N as int,
                    adjusted_request(size as int, align as int),
                );
            }
            return None;
        }
        let m = if align <= 4 {
            size
        } else {
            size + align - 4
        };
        match self.raw.allocate(m) {
            None => None,
            Some(q) => {
                let ghost recs = old(self).raw.records();
                let ghost i = choose|i: int|
                    {
                        &&& #[trigger] is_best_fit(recs, round_up4(m as int), i)
                        &&& q == recs[i].off + 4
                        &&& self.raw.records() == split_records(recs, i, round_up4(m as int))
                    };
                proof {
                    assert(is_best_fit(recs, round_up4(m as int), i));
                    crate::buffer::lemma_wf_chained(old(self).raw.buffer@, 0);
                    assert(recs[i].off % 4 == 0);
                    assert(recs[i].off + 4 + recs[i].size <= N as int);
                    lemma_adapter_alignment(q as int, align as int);
                }
                let p = if align <= 4 {
                    q
                } else {
                    (q + (align - 1)) / align * align
                };
                proof {
                    assert(p as int == align_up(q as int, align as int));
                    assert(round_up4(m as int) >= m as int) by {
                        vstd::arithmetic::div_mod::lemma_fundamental_div_mod(m as int + 3, 4);
                        vstd::arithmetic::div_mod::lemma_mod_bound(m as int + 3, 4);
                    }
                    assert(self.records()[i].size >= round_up4(m as int));
                    assert(p + size <= recs[i].off + 4 + self.records()[i].size);
                    assert(is_best_fit(
                        old(self).records(),
                        round_up4(adjusted_request(size as int, align as int)),
                        i,
                    ));
                    assert(self.records() == split_records(
                        old(self).records(),
                        i,
                        round_up4(adjusted_request(size as int, align as int)),
                    ));
                    assert(p as int == align_up(old(self).records()[i].off + 4, align as int));
                    assert(4 <= p);
                }
                Some(p)
            },
        }
    }

    /// Release the block whose payload holds `ptr`, allocated with the given
    /// `size` and `align`. A zero-sized request owns no heap, so its
    /// sentinel offset is not forwarded to the raw allocator.
    ///
    /// The errors report a free of an offset in an already-free record and
    /// a free of an offset inside no record's payload; a correct host never
    /// sees either, and may treat them as fatal.
    pub fn dealloc(&mut self, ptr: usize, size: usize, align: usize) -> (r: Result<
        (),
        FreeError,
    >)
        requires
            old(self).wf(),
        ensures
            final(self).wf(),
            size == 0 ==> r is Ok && *final(self) == *old(self),
            size > 0 ==> match r {
                Ok(_) => exists|j: int|
                    {
                        &&& #[trigger] find_in(old(self).records(), ptr as int, j)
                        &&& old(self).records()[j].state is Used
                        &&& final(self).records() == free_records(old(self).records(), j)
                    },
                Err(FreeError::DoubleFreeDetected) => {
                    &&& *final(self) == *old(self)
                    &&& exists|j: int|
                        #[trigger] find_in(old(self).records(), ptr as int, j) && old(
                            self,
                        ).records()[j].state is Free
                },
                Err(FreeError::AllocationNotFound) => {
                    &&& *final(self) == *old(self)
                    &&& forall|j: int| !find_in(old(self).records(), ptr as int, j)
                },
            },
    {
        if size == 0 {
            return Ok(());
        }
        let r = self.raw.free(ptr);
        proof {
            if r is Ok {
                let ghost j = choose|j: int|
                    {
                        &&& #[trigger] find_in(old(self).raw.records(), ptr as int, j)
                        &&& old(self).raw.records()[j].state is Used
                        &&& self.raw.records() == free_records(old(self).raw.records(), j)
                    };
                assert(find_in(old(self).records(), ptr as int, j));
            }
            if r is Err && r->Err_0 is DoubleFreeDetected {
                let ghost j = choose|j: int|
                    #[trigger] find_in(old(self).raw.records(), ptr as int, j) && old(
                        self,
                    ).raw.records()[j].state is Free;
                assert(find_in(old(self).records(), ptr as int, j));
            }
        }
        r
    }
}

} // verus!
