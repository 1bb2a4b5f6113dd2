//! Heap allocator over a fixed virtual range that `init_heap` maps page by
//! page before any allocation is legal. Allocation carves blocks from a
//! sorted free list kept inside the range; deallocation returns a block and
//! coalesces it with adjacent free blocks, so balanced allocate/deallocate
//! sequences restore the free space exactly.

use vstd::prelude::*;
use crate::frame_alloc::BootInfoFrameAllocator;
use crate::memory_map::PAGE_SIZE;
use crate::paging::MapToError;
use crate::paging::PageFlags;
use crate::paging::PageMapper;

verus! {

/// Start of the kernel heap's virtual range.
pub const HEAP_START: u64 = 0x4444_4444_0000;

/// Size of the kernel heap in bytes (a multiple of the page size).
pub const HEAP_SIZE: u64 = 102400;

#[derive(Clone, Copy, PartialEq, Eq, Structural, Debug)]
pub enum HeapError {
    /// No free block can satisfy the requested size and alignment.
    OutOfMemory,
}

/// Sum of the lengths of the free blocks.
pub open spec fn blocks_total(s: Seq<(u64, u64)>) -> int
    decreases s.len(),
{
    if s.len() == 0 {
        0
    } else {
        blocks_total(s.drop_last()) + (s.last().1 - s.last().0)
    }
}

proof fn lemma_blocks_total_split(s: Seq<(u64, u64)>, i: int)
    requires
        0 <= i <= s.len(),
    ensures
        blocks_total(s) == blocks_total(s.take(i)) + blocks_total(s.skip(i)),
    decreases s.len() - i,
{
    if i == s.len() {
        assert(s.take(i) =~= s);
        assert(blocks_total(s.skip(i)) == 0);
    } else {
        lemma_blocks_total_split(s, i + 1);
        assert(s.take(i + 1).drop_last() =~= s.take(i));
        assert(s.take(i + 1).last() == s[i]);
        lemma_blocks_total_head(s.skip(i));
        assert(s.skip(i).drop_first() =~= s.skip(i + 1));
        assert(s.skip(i)[0] == s[i]);
    }
}

proof fn lemma_blocks_total_head(s: Seq<(u64, u64)>)
    requires
        s.len() > 0,
    ensures
        blocks_total(s) == (s[0].1 - s[0].0) + blocks_total(s.drop_first()),
    decreases s.len(),
{
    if s.len() == 1 {
        assert(s.drop_first() =~= s.drop_last());
    } else {
        lemma_blocks_total_head(s.drop_last());
        assert(s.drop_last().drop_first() =~= s.drop_first().drop_last());
        assert(s.drop_first().last() == s.last());
        assert(s.drop_last()[0] == s[0]);
    }
}

/// The aligned position where an allocation would start inside a block
/// beginning at `s`.
pub open spec fn align_up_to(s: int, align: int) -> int {
    s + ((align - s % align) % align)
}

/// A block `[bs, be)` can hold `size` bytes at alignment `align`.
pub open spec fn block_fits(b: (u64, u64), size: u64, align: u64) -> bool {
    align_up_to(b.0 as int, align as int) + size <= b.1
}

pub struct HeapAllocator {
    heap_start: u64,
    heap_end: u64,
    free: Vec<(u64, u64)>,
    live: Ghost<Map<u64, (u64, u64)>>,
}

impl HeapAllocator {
    pub closed spec fn heap_start_spec(self) -> u64 {
        self.heap_start
    }

    pub closed spec fn heap_end_spec(self) -> u64 {
        self.heap_end
    }

    /// The free blocks, ascending, pairwise separated.
    pub closed spec fn free_spec(self) -> Seq<(u64, u64)> {
        self.free@
    }

    /// Every live allocation: its start address mapped to (size, align).
    pub closed spec fn live_spec(self) -> Map<u64, (u64, u64)> {
        self.live@
    }

    /// Bytes currently free.
    pub open spec fn free_total(self) -> int {
        blocks_total(self.free_spec())
    }

    pub open spec fn wf(self) -> bool {
        &&& self.heap_start_spec() <= self.heap_end_spec()
        &&& forall|k: int|
            0 <= k < self.free_spec().len() ==> self.heap_start_spec() <= (
            #[trigger] self.free_spec()[k]).0 < self.free_spec()[k].1 <= self.heap_end_spec()
        &&& forall|k: int|
            0 <= k < self.free_spec().len() - 1 ==> (#[trigger] self.free_spec()[k]).1
                < self.free_spec()[k + 1].0
        &&& forall|p: u64|
            #[trigger] self.live_spec().contains_key(p) ==> self.heap_start_spec() <= p && p
                + self.live_spec()[p].0 <= self.heap_end_spec() && self.live_spec()[p].0 > 0
        &&& forall|p1: u64, p2: u64|
            #[trigger] self.live_spec().contains_key(p1) && #[trigger] self.live_spec().contains_key(
                p2,
            ) && p1 != p2 ==> p1 + self.live_spec()[p1].0 <= p2 || p2 + self.live_spec()[p2].0
                <= p1
        &&& forall|p: u64, k: int|
            #[trigger] self.live_spec().contains_key(p) && 0 <= k < self.free_spec().len() ==> p
                + self.live_spec()[p].0 <= (#[trigger] self.free_spec()[k]).0
                || self.free_spec()[k].1 <= p
    }

    /// An allocator whose single free block is the whole given range.
    pub fn new(heap_start: u64, heap_size: u64) -> (r: HeapAllocator)
        requires
            heap_start + heap_size <= u64::MAX,
        ensures
            r.wf(),
            r.heap_start_spec() == heap_start,
            r.heap_end_spec() == heap_start + heap_size,
            r.free_total() == heap_size,
            r.live_spec() =~= Map::<u64, (u64, u64)>::empty(),
    {
        let mut free: Vec<(u64, u64)> = Vec::new();
        if heap_size > 0 {
            free.push((heap_start, heap_start + heap_size));
        }
        let r = HeapAllocator {
            heap_start,
            heap_end: heap_start + heap_size,
            free,
            live: Ghost(Map::empty()),
        };
        proof {
            if heap_size > 0 {
                assert(r.free_spec().drop_last() =~= Seq::<(u64, u64)>::empty());
                assert(r.free_spec().last() == (heap_start, (heap_start + heap_size) as u64));
                assert(blocks_total(r.free_spec().drop_last()) == 0);
            } else {
                assert(blocks_total(r.free_spec()) == 0);
            }
        }
        r
    }

    /// Returns an address of `size` bytes at alignment `align` carved out of
    /// a free block, or reports out-of-memory exactly when no free block can
    /// hold such an allocation. Live allocations never overlap.
    pub fn allocate(&mut self, size: u64, align: u64) -> (r: Result<u64, HeapError>)
        requires
            old(self).wf(),
            size > 0,
            align > 0,
        ensures
            final(self).wf(),
            final(self).heap_start_spec() == old(self).heap_start_spec(),
            final(self).heap_end_spec() == old(self).heap_end_spec(),
            match r {
                Ok(p) => {
                    &&& final(self).free_total() == old(self).free_total() - size
                    &&& final(self).live_spec() == old(self).live_spec().insert(p, (size, align))
                    &&& !old(self).live_spec().contains_key(p)
                    &&& p as int % align as int == 0
                    &&& old(self).heap_start_spec() <= p
                    &&& p + size <= old(self).heap_end_spec()
                },
                Err(e) => {
                    &&& e == HeapError::OutOfMemory
                    &&& *final(self) == *old(self)
                    &&& forall|k: int|
                        0 <= k < old(self).free_spec().len() ==> !block_fits(
                            #[trigger] old(self).free_spec()[k],
                            size,
                            align,
                        )
                },
            },
    {
        let n = self.free.len();
        let mut k: usize = 0;
        while k < n
            invariant
                k <= n,
                n == self.free_spec().len(),
                *self == *old(self),
                old(self).wf(),
                size > 0,
                align > 0,
                forall|j: int|
                    0 <= j < k ==> !block_fits(#[trigger] self.free_spec()[j], size, align),
            decreases n - k,
        {
            let (bs, be) = self.free[k];
            let rem = bs % align;
            let pad = if rem == 0 {
                0
            } else {
                align - rem
            };
            proof {
                let ai = align as int;
                let bi = bs as int;
                vstd::arithmetic::div_mod::lemma_fundamental_div_mod(bi, ai);
                let q = bi / ai;
                if rem == 0 {
                    vstd::arithmetic::div_mod::lemma_small_mod(0nat, align as nat);
                    assert((ai - bi % ai) % ai == ai % ai);
                    vstd::arithmetic::div_mod::lemma_mod_multiples_basic(1, ai);
                    assert(ai % ai == 0) by {
                        assert(1 * ai == ai);
                    };
                    assert(bs + pad == align_up_to(bi, ai));
                    assert((bi % ai) == 0);
                } else {
                    vstd::arithmetic::div_mod::lemma_small_mod((align - rem) as nat, align as nat);
                    assert(bs + pad == align_up_to(bi, ai));
                    assert(bi + (ai - rem) == (q + 1) * ai) by (nonlinear_arith)
                        requires
                            bi == ai * q + rem,
                    ;
                    vstd::arithmetic::div_mod::lemma_mod_multiples_basic(q + 1, ai);
                }
                assert((bs + pad) % ai == 0);
            }
            if pad <= u64::MAX - bs {
                let p = bs + pad;
                if p <= be && size <= be - p {
                    // carve [p, p + size) out of the block
                    let ghost f0 = self.free_spec();
                    let mut out: Vec<(u64, u64)> = Vec::new();
                    let mut j: usize = 0;
                    while j < k
                        invariant
                            j <= k,
                            k < f0.len(),
                            self.free_spec() == f0,
                            out@ =~= f0.take(j as int),
                        decreases k - j,
                    {
                        let b = self.free[j];
                        out.push(b);
                        proof {
                            assert(out@ =~= f0.take(j + 1 as int));
                        }
                        j += 1;
                    }
                    if bs < p {
                        out.push((bs, p));
                    }
                    if p + size < be {
                        out.push((p + size, be));
                    }
                    let ghost mid = out@;
                    proof {
                        assert(mid =~= f0.take(k as int) + carve_pieces(bs, be, p, size));
                    }
                    let mut j2: usize = k + 1;
                    while j2 < n
                        invariant
                            k + 1 <= j2 <= n,
                            n == f0.len(),
                            self.free_spec() == f0,
                            out@ =~= mid + f0.skip(k + 1).take(j2 - k - 1),
                        decreases n - j2,
                    {
                        let b = self.free[j2];
                        out.push(b);
                        proof {
                            assert(out@ =~= mid + f0.skip(k + 1).take(j2 - k as int));
                        }
                        j2 += 1;
                    }
                    proof {
                        assert(f0.skip(k + 1).take(n - k - 1) =~= f0.skip(k + 1));
                        assert(out@ =~= mid + f0.skip(k + 1));
                    }
                    self.free = out;
                    self.live = Ghost(self.live@.insert(p, (size, align)));
                    proof {
                        assert(self.free_spec() =~= f0.take(k as int) + carve_pieces(
                            bs,
                            be,
                            p,
                            size,
                        ) + f0.skip(k + 1));
                        Self::lemma_carve_total(f0, self.free_spec(), k as int, p, size, bs, be);
                        assert(self.wf()) by {
                            Self::lemma_carve_wf(*old(self), *self, k as int, p, size, align, bs, be);
                        };
                    }
                    return Ok(p);
                }
            }
            proof {
                assert(!block_fits(self.free_spec()[k as int], size, align)) by {
                    assert(align_up_to(bs as int, align as int) == bs + pad);
                };
            }
            k += 1;
        }
        Err(HeapError::OutOfMemory)
    }

    /// The carved free list is the old one with `[p, p + size)` removed from
    /// block `k`; its total shrinks by exactly `size`.
    proof fn lemma_carve_total(f0: Seq<(u64, u64)>, f1: Seq<(u64, u64)>, k: int, p: u64, size: u64, bs: u64, be: u64)
        requires
            0 <= k < f0.len(),
            f0[k] == (bs, be),
            bs <= p,
            p + size <= be,
            size > 0,
            f1 =~= f0.take(k) + carve_pieces(bs, be, p, size) + f0.skip(k + 1),
        ensures
            blocks_total(f1) == blocks_total(f0) - size,
    {
        lemma_blocks_total_split(f0, k);
        lemma_blocks_total_head(f0.skip(k));
        assert(f0.skip(k).drop_first() =~= f0.skip(k + 1));
        let pieces = carve_pieces(bs, be, p, size);
        lemma_blocks_total_split(f1, f0.take(k).len() as int);
        assert(f1.take(f0.take(k).len() as int) =~= f0.take(k));
        assert(f1.skip(f0.take(k).len() as int) =~= pieces + f0.skip(k + 1));
        lemma_blocks_total_split(pieces + f0.skip(k + 1), pieces.len() as int);
        assert((pieces + f0.skip(k + 1)).take(pieces.len() as int) =~= pieces);
        assert((pieces + f0.skip(k + 1)).skip(pieces.len() as int) =~= f0.skip(k + 1));
        assert(blocks_total(pieces) == (be - bs) - size) by {
            if bs < p && p + size < be {
                assert(pieces.drop_last() =~= seq![(bs, p)]);
                assert(seq![(bs, p)].drop_last() =~= Seq::<(u64, u64)>::empty());
                assert(blocks_total(seq![(bs, p)].drop_last()) == 0);
                assert(seq![(bs, p)].last() == (bs, p));
                assert(blocks_total(seq![(bs, p)]) == p - bs);
                assert(pieces.last() == (((p + size) as u64), be));
            } else if bs < p {
                assert(pieces.drop_last() =~= Seq::<(u64, u64)>::empty());
                assert(blocks_total(pieces.drop_last()) == 0);
                assert(pieces.last() == (bs, p));
            } else if p + size < be {
                assert(pieces.drop_last() =~= Seq::<(u64, u64)>::empty());
                assert(blocks_total(pieces.drop_last()) == 0);
                assert(pieces.last() == (((p + size) as u64), be));
            } else {
                assert(blocks_total(pieces) == 0);
            }
        };
        assert(blocks_total(f1) == blocks_total(f0.take(k)) + blocks_total(pieces) + blocks_total(
            f0.skip(k + 1),
        ));
        assert(blocks_total(f0) == blocks_total(f0.take(k)) + (be - bs) + blocks_total(
            f0.skip(k + 1),
        ));
    }

    /// Well-formedness after carving: the pieces stay inside the old block,
    /// so order, bounds and disjointness carry over, and the new live block
    /// lies in memory no other live block and no free block touches.
    #[verifier::spinoff_prover]
    #[verifier::rlimit(100)]
    proof fn lemma_carve_wf(h0: HeapAllocator, h1: HeapAllocator, k: int, p: u64, size: u64, align: u64, bs: u64, be: u64)
        requires
            h0.wf(),
            0 <= k < h0.free_spec().len(),
            h0.free_spec()[k] == (bs, be),
            bs <= p,
            p + size <= be,
            size > 0,
            h1.heap_start_spec() == h0.heap_start_spec(),
            h1.heap_end_spec() == h0.heap_end_spec(),
            h1.free_spec() =~= h0.free_spec().take(k) + carve_pieces(bs, be, p, size) + h0.free_spec().skip(k + 1),
            h1.live_spec() == h0.live_spec().insert(p, (size, align)),
        ensures
            h1.wf(),
    {
        let f0 = h0.free_spec();
        let f1 = h1.free_spec();
        let pieces = carve_pieces(bs, be, p, size);
        assert(pieces.len() <= 2);
        assert forall|m: int|
            0 <= m < pieces.len() implies bs <= (#[trigger] pieces[m]).0 && pieces[m].0
            < pieces[m].1 && pieces[m].1 <= be && (pieces[m].1 <= p || pieces[m].0 >= p
            + size) by {};
        assert forall|j: int, jj: int| 0 <= j < jj < f0.len() implies (#[trigger] f0[j]).1 < (
        #[trigger] f0[jj]).0 by {
            Self::lemma_free_sorted_chain(h0, j, jj);
        };
        assert(!h0.live_spec().contains_key(p)) by {
            if h0.live_spec().contains_key(p) {
                assert(p + h0.live_spec()[p].0 <= f0[k].0 || f0[k].1 <= p);
            }
        };
        assert forall|j: int| 0 <= j < f1.len() implies h1.heap_start_spec() <= (
            #[trigger] f1[j]).0 < f1[j].1 <= h1.heap_end_spec() by {
            if j < k {
                assert(f1[j] == f0[j]);
            } else if j < k + pieces.len() {
                assert(pieces[j - k].0 >= bs && pieces[j - k].1 <= be && pieces[j - k].0
                    < pieces[j - k].1);
            } else {
                assert(f1[j] == f0[j - pieces.len() + 1]);
            }
        };
        assert forall|j: int| 0 <= j < f1.len() - 1 implies (#[trigger] f1[j]).1 < f1[j + 1].0 by {
            if j + 1 < k {
                assert(f1[j] == f0[j] && f1[j + 1] == f0[j + 1]);
            } else if j + 1 == k {
                assert(f1[j] == f0[j]);
                if pieces.len() > 0 {
                    assert(f1[k] == pieces[0] && pieces[0].0 >= bs);
                } else {
                    assert(f1[j + 1] == f0[k + 1]);
                }
            } else if j + 1 < k + pieces.len() {
                assert(f1[j] == pieces[j - k] && f1[j + 1] == pieces[j - k + 1]);
            } else if j + 1 == k + pieces.len() && pieces.len() > 0 {
                assert(f1[j] == pieces[pieces.len() - 1]);
                assert(f1[j + 1] == f0[k + 1]);
                assert(pieces[pieces.len() - 1].1 <= be);
            } else {
                assert(f1[j] == f0[j - pieces.len() + 1] && f1[j + 1] == f0[j - pieces.len() + 2]);
            }
        };
        assert forall|q1: u64, q2: u64|
            #[trigger] h1.live_spec().contains_key(q1) && #[trigger] h1.live_spec().contains_key(
                q2,
            ) && q1 != q2 implies q1 + h1.live_spec()[q1].0 <= q2 || q2 + h1.live_spec()[q2].0
            <= q1 by {
            if q1 == p {
                assert(h0.live_spec().contains_key(q2));
                assert(q2 + h0.live_spec()[q2].0 <= f0[k].0 || f0[k].1 <= q2);
            } else if q2 == p {
                assert(h0.live_spec().contains_key(q1));
                assert(q1 + h0.live_spec()[q1].0 <= f0[k].0 || f0[k].1 <= q1);
            }
        };
        assert forall|q: u64, j: int|
            #[trigger] h1.live_spec().contains_key(q) && 0 <= j < f1.len() implies q
            + h1.live_spec()[q].0 <= (#[trigger] f1[j]).0 || f1[j].1 <= q by {
            if j < k {
                assert(f1[j] == f0[j]);
            } else if j < k + pieces.len() {
                assert(f1[j] == pieces[j - k]);
                assert(pieces[j - k].0 >= bs && pieces[j - k].1 <= be);
                assert(pieces[j - k].1 <= p || pieces[j - k].0 >= p + size);
                if q == p {
                } else {
                    assert(h0.live_spec().contains_key(q));
                    assert(q + h0.live_spec()[q].0 <= f0[k].0 || f0[k].1 <= q);
                }
            } else {
                assert(f1[j] == f0[j - pieces.len() + 1]);
                if q == p {
                    assert(f0[k].1 < f0[j - pieces.len() + 1].0);
                }
            }
        };
    }

    /// Returns a block obtained from `allocate` to the free structure,
    /// coalescing it with an adjacent free block on either side, so free
    /// space is counted exactly once and balanced allocate/deallocate pairs
    /// restore the free total.
    pub fn deallocate(&mut self, ptr: u64, size: u64, align: u64)
        requires
            old(self).wf(),
            old(self).live_spec().contains_key(ptr),
            old(self).live_spec()[ptr] == (size, align),
        ensures
            final(self).wf(),
            final(self).heap_start_spec() == old(self).heap_start_spec(),
            final(self).heap_end_spec() == old(self).heap_end_spec(),
            final(self).live_spec() == old(self).live_spec().remove(ptr),
            final(self).free_total() == old(self).free_total() + size,
    {
        let ghost f0 = self.free_spec();
        proof {
            assert forall|j: int, jj: int| 0 <= j < jj < f0.len() implies (#[trigger] f0[j]).1 < (
            #[trigger] f0[jj]).0 by {
                Self::lemma_free_sorted_chain(*self, j, jj);
            };
            assert(size > 0);
            assert(ptr + size <= self.heap_end_spec());
        }
        let n = self.free.len();
        let mut k: usize = 0;
        while k < n && self.free[k].1 < ptr
            invariant
                k <= n,
                n == self.free_spec().len(),
                *self == *old(self),
                old(self).wf(),
                forall|j: int| 0 <= j < k ==> (#[trigger] self.free_spec()[j]).1 < ptr,
            decreases n - k,
        {
            k += 1;
        }
        let mut ms = ptr;
        let mut me = ptr + size;
        let mut right_j = k;
        if k < n {
            let b = self.free[k];
            proof {
                assert(ptr + size <= f0[k as int].0 || f0[k as int].1 <= ptr);
            }
            if b.1 == ptr {
                ms = b.0;
                right_j = k + 1;
            }
        }
        if right_j < n {
            let b = self.free[right_j];
            proof {
                assert(ptr + size <= f0[right_j as int].0 || f0[right_j as int].1 <= ptr);
                if right_j > k {
                    assert(f0[k as int].1 == ptr);
                    assert(f0[right_j as int].0 > f0[k as int].1);
                }
            }
            if b.0 == me {
                me = b.1;
                right_j += 1;
            }
        }
        let mut out: Vec<(u64, u64)> = Vec::new();
        let mut j: usize = 0;
        while j < k
            invariant
                j <= k,
                k <= f0.len(),
                self.free_spec() == f0,
                out@ =~= f0.take(j as int),
            decreases k - j,
        {
            let b = self.free[j];
            out.push(b);
            proof {
                assert(out@ =~= f0.take(j + 1 as int));
            }
            j += 1;
        }
        out.push((ms, me));
        let ghost mid = out@;
        let mut j2: usize = right_j;
        while j2 < n
            invariant
                right_j <= j2 <= n,
                n == f0.len(),
                self.free_spec() == f0,
                out@ =~= mid + f0.skip(right_j as int).take(j2 - right_j),
            decreases n - j2,
        {
            let b = self.free[j2];
            out.push(b);
            proof {
                assert(out@ =~= mid + f0.skip(right_j as int).take(j2 - right_j + 1));
            }
            j2 += 1;
        }
        proof {
            assert(f0.skip(right_j as int).take(n - right_j) =~= f0.skip(right_j as int));
            assert(out@ =~= f0.take(k as int) + seq![(ms, me)] + f0.skip(right_j as int));
        }
        self.free = out;
        self.live = Ghost(self.live@.remove(ptr));
        proof {
            let ki = k as int;
            let rji = right_j as int;
            if rji < f0.len() {
                assert(ptr + size <= f0[rji].0 && f0[rji].0 != me) by {
                    assert(f0[rji].1 >= ptr);
                    assert(ptr + size <= f0[rji].0 || f0[rji].1 <= ptr);
                    if rji > ki {
                        assert(f0[ki].1 <= f0[rji].0);
                        if rji == ki + 2 {
                            assert(f0[ki + 1].1 < f0[rji].0);
                        }
                    }
                };
            }
            Self::lemma_merge_total(*old(self), *self, ki, rji, ptr, size, ms, me);
            Self::lemma_merge_wf(*old(self), *self, ki, rji, ptr, size, ms, me);
        }
    }

    /// The merged free list's total grows by exactly the freed size: the
    /// absorbed neighbours are counted once inside the merged block.
    #[verifier::rlimit(100)]
    proof fn lemma_merge_total(
        h0: HeapAllocator,
        h1: HeapAllocator,
        k: int,
        rj: int,
        ptr: u64,
        size: u64,
        ms: u64,
        me: u64,
    )
        requires
            h0.wf(),
            0 <= k <= rj <= h0.free_spec().len(),
            rj <= k + 2,
            h1.free_spec() =~= h0.free_spec().take(k) + seq![(ms, me)] + h0.free_spec().skip(rj),
            size > 0,
            merge_shape(h0.free_spec(), k, rj, ptr, size, ms, me),
        ensures
            blocks_total(h1.free_spec()) == blocks_total(h0.free_spec()) + size,
    {
        let f0 = h0.free_spec();
        let f1 = h1.free_spec();
        assert(ms <= ptr && ptr + size <= me);
        lemma_blocks_total_split(f0, k);
        lemma_blocks_total_split(f0.skip(k), rj - k);
        assert(f0.skip(k).take(rj - k) =~= f0.subrange(k, rj));
        assert(f0.skip(k).skip(rj - k) =~= f0.skip(rj));
        lemma_blocks_total_split(f1, k);
        assert(f1.take(k) =~= f0.take(k));
        assert(f1.skip(k) =~= seq![(ms, me)] + f0.skip(rj));
        lemma_blocks_total_head(seq![(ms, me)] + f0.skip(rj));
        assert((seq![(ms, me)] + f0.skip(rj)).drop_first() =~= f0.skip(rj));
        assert((seq![(ms, me)] + f0.skip(rj))[0] == (ms, me));
        // the absorbed span equals the sum over the blocks between k and rj
        if rj == k {
            assert(f0.subrange(k, rj) =~= Seq::<(u64, u64)>::empty());
        } else if rj == k + 1 {
            assert(f0.subrange(k, rj) =~= seq![f0[k]]);
            assert(seq![f0[k]].drop_last() =~= Seq::<(u64, u64)>::empty());
            assert(blocks_total(seq![f0[k]].drop_last()) == 0);
            assert(seq![f0[k]].last() == f0[k]);
            assert(blocks_total(seq![f0[k]]) == f0[k].1 - f0[k].0);
        } else {
            assert(f0.subrange(k, rj) =~= seq![f0[k], f0[k + 1]]);
            assert(seq![f0[k], f0[k + 1]].drop_last() =~= seq![f0[k]]);
            assert(seq![f0[k]].drop_last() =~= Seq::<(u64, u64)>::empty());
            assert(blocks_total(seq![f0[k]].drop_last()) == 0);
            assert(seq![f0[k]].last() == f0[k]);
            assert(blocks_total(seq![f0[k]]) == f0[k].1 - f0[k].0);
            assert(seq![f0[k], f0[k + 1]].last() == f0[k + 1]);
            assert(blocks_total(seq![f0[k], f0[k + 1]]) == (f0[k].1 - f0[k].0) + (f0[k + 1].1
                - f0[k + 1].0));
        }
        assert(blocks_total(f1) == blocks_total(f0.take(k)) + (me - ms) + blocks_total(
            f0.skip(rj),
        ));
        assert(blocks_total(f0) == blocks_total(f0.take(k)) + blocks_total(f0.subrange(k, rj))
            + blocks_total(f0.skip(rj)));
        if rj == k {
            assert(blocks_total(f0.subrange(k, rj)) == 0);
        } else if rj == k + 1 {
            assert(blocks_total(f0.subrange(k, rj)) == f0[k].1 - f0[k].0);
        } else {
            assert(blocks_total(f0.subrange(k, rj)) == (f0[k].1 - f0[k].0) + (f0[k + 1].1 - f0[k
                + 1].0));
        }
        assert(blocks_total(f0.subrange(k, rj)) == (me - ms) - size);
    }

    /// Well-formedness of the merged free list: the merged block covers the
    /// freed range and its absorbed neighbours and stays separated from, and
    /// ordered with, everything else; remaining live blocks touch none of it.
    #[verifier::rlimit(100)]
    proof fn lemma_merge_wf(
        h0: HeapAllocator,
        h1: HeapAllocator,
        k: int,
        rj: int,
        ptr: u64,
        size: u64,
        ms: u64,
        me: u64,
    )
        requires
            h0.wf(),
            h0.live_spec().contains_key(ptr),
            h0.live_spec()[ptr] == (size, h0.live_spec()[ptr].1),
            h0.live_spec()[ptr].0 == size,
            0 <= k <= rj <= h0.free_spec().len(),
            rj <= k + 2,
            h1.free_spec() =~= h0.free_spec().take(k) + seq![(ms, me)] + h0.free_spec().skip(rj),
            h1.live_spec() == h0.live_spec().remove(ptr),
            h1.heap_start_spec() == h0.heap_start_spec(),
            h1.heap_end_spec() == h0.heap_end_spec(),
            merge_shape(h0.free_spec(), k, rj, ptr, size, ms, me),
            forall|j: int| 0 <= j < k ==> (#[trigger] h0.free_spec()[j]).1 < ptr,
            rj < h0.free_spec().len() ==> ptr + size <= h0.free_spec()[rj].0
                && h0.free_spec()[rj].0 != me,
        ensures
            h1.wf(),
    {
        let f0 = h0.free_spec();
        let f1 = h1.free_spec();
        assert forall|j: int, jj: int| 0 <= j < jj < f0.len() implies (#[trigger] f0[j]).1 < (
        #[trigger] f0[jj]).0 by {
            Self::lemma_free_sorted_chain(h0, j, jj);
        };
        assert(ms <= ptr && ptr + size <= me);
        assert(h0.heap_start_spec() <= ms && me <= h0.heap_end_spec());
        assert forall|j: int| 0 <= j < f1.len() implies h1.heap_start_spec() <= (
        #[trigger] f1[j]).0 < f1[j].1 <= h1.heap_end_spec() by {
            if j < k {
                assert(f1[j] == f0[j]);
            } else if j == k {
                assert(f1[j] == (ms, me));
            } else {
                assert(f1[j] == f0[j - k - 1 + rj]);
            }
        };
        assert forall|j: int| 0 <= j < f1.len() - 1 implies (#[trigger] f1[j]).1 < f1[j + 1].0 by {
            if j + 1 < k {
                assert(f1[j] == f0[j] && f1[j + 1] == f0[j + 1]);
            } else if j + 1 == k {
                assert(f1[j] == f0[j] && f1[j + 1] == (ms, me));
                assert(f0[j].1 < ptr);
                if ms != ptr {
                    assert(f0[j].1 < f0[k].0);
                }
            } else if j == k {
                assert(f1[j] == (ms, me) && f1[j + 1] == f0[rj]);
                assert(ptr + size <= f0[rj].0 && f0[rj].0 != me);
                if me != ptr + size {
                    assert(f0[rj].0 > me || f0[rj].0 == me) by {
                        if ms == ptr {
                            assert(me == f0[k].1);
                            assert(f0[k].1 < f0[rj].0);
                        } else {
                            assert(me == f0[k + 1].1);
                            assert(f0[k + 1].1 < f0[rj].0);
                        }
                    };
                }
            } else {
                assert(f1[j] == f0[j - k - 1 + rj] && f1[j + 1] == f0[j - k + rj]);
            }
        };
        assert forall|q1: u64, q2: u64|
            #[trigger] h1.live_spec().contains_key(q1) && #[trigger] h1.live_spec().contains_key(
                q2,
            ) && q1 != q2 implies q1 + h1.live_spec()[q1].0 <= q2 || q2 + h1.live_spec()[q2].0
            <= q1 by {};
        assert forall|q: u64, j: int|
            #[trigger] h1.live_spec().contains_key(q) && 0 <= j < f1.len() implies q
            + h1.live_spec()[q].0 <= (#[trigger] f1[j]).0 || f1[j].1 <= q by {
            assert(q != ptr);
            assert(h0.live_spec().contains_key(q));
            let qs = h0.live_spec()[q].0;
            if j < k {
                assert(f1[j] == f0[j]);
            } else if j == k {
                assert(f1[j] == (ms, me));
                assert(q + qs <= ptr || ptr + size <= q);
                if ms != ptr {
                    assert(q + qs <= f0[k].0 || f0[k].1 <= q);
                }
                if me != ptr + size {
                    if ms == ptr {
                        assert(q + qs <= f0[k].0 || f0[k].1 <= q);
                    } else {
                        assert(q + qs <= f0[k + 1].0 || f0[k + 1].1 <= q);
                    }
                }
            } else {
                assert(f1[j] == f0[j - k - 1 + rj]);
            }
        };
    }

    /// In a sorted, separated free list, an earlier block ends before a
    /// later one starts.
    proof fn lemma_free_sorted_chain(h: HeapAllocator, i: int, j: int)
        requires
            h.wf(),
            0 <= i < j < h.free_spec().len(),
        ensures
            h.free_spec()[i].1 < h.free_spec()[j].0,
        decreases j - i,
    {
        if i + 1 < j {
            Self::lemma_free_sorted_chain(h, i + 1, j);
        }
    }
}

/// Maps the heap's fixed virtual range page by page, obtaining a fresh frame
/// for each page, then hands back an allocator whose free space is exactly
/// the whole range. Until this succeeds, dynamic allocation is illegal; a
/// mapping failure is propagated and no allocator is produced. Pages outside
/// the heap range are never touched.
pub fn init_heap(mapper: &mut PageMapper, frame_allocator: &mut BootInfoFrameAllocator) -> (r:
    Result<HeapAllocator, MapToError>)
    requires
        old(mapper).wf(),
        old(frame_allocator).wf(),
    ensures
        final(mapper).wf(),
        final(frame_allocator).wf(),
        final(mapper).phys_offset_spec() == old(mapper).phys_offset_spec(),
        final(frame_allocator).regions_spec() == old(frame_allocator).regions_spec(),
        final(frame_allocator).kernel_spec() == old(frame_allocator).kernel_spec(),
        forall|q: u64|
            crate::paging::page_mappable(q) && !(HEAP_START <= q < HEAP_START + HEAP_SIZE)
                ==> #[trigger] final(mapper).walk(q) == old(mapper).walk(q),
        match r {
            Ok(h) => {
                &&& h.wf()
                &&& h.heap_start_spec() == HEAP_START
                &&& h.heap_end_spec() == HEAP_START + HEAP_SIZE
                &&& h.free_total() == HEAP_SIZE
                &&& h.live_spec() =~= Map::<u64, (u64, u64)>::empty()
                &&& forall|j: u64|
                    j < HEAP_SIZE / PAGE_SIZE ==> (#[trigger] final(mapper).walk(
                        (HEAP_START + j * PAGE_SIZE) as u64,
                    )) is Some
            },
            Err(e) => true,
        },
        (r matches Err(e) && e == MapToError::FrameAllocationFailed) ==> (forall|g: u64|
            final(frame_allocator).valid_frame(g) ==> g < final(frame_allocator).cursor_spec()),
        r matches Err(MapToError::PageAlreadyMapped(f0)) ==> (exists|j: u64|
            j < HEAP_SIZE / PAGE_SIZE && (#[trigger] old(mapper).walk(
                (HEAP_START + j * PAGE_SIZE) as u64,
            ) matches Some((fw, fl)) && fw == f0)),
{
    let pages = HEAP_SIZE / PAGE_SIZE;
    let flags = PageFlags::kernel_data();
    let mut k: u64 = 0;
    while k < pages
        invariant
            mapper.wf(),
            frame_allocator.wf(),
            mapper.phys_offset_spec() == old(mapper).phys_offset_spec(),
            frame_allocator.regions_spec() == old(frame_allocator).regions_spec(),
            frame_allocator.kernel_spec() == old(frame_allocator).kernel_spec(),
            0 <= k <= pages,
            pages == HEAP_SIZE / PAGE_SIZE,
            forall|q: u64|
                crate::paging::page_mappable(q) && !(HEAP_START <= q < HEAP_START + HEAP_SIZE)
                    ==> #[trigger] mapper.walk(q) == old(mapper).walk(q),
            forall|j: u64|
                j < k ==> (#[trigger] mapper.walk((HEAP_START + j * PAGE_SIZE) as u64)) is Some,
            forall|j: u64|
                k <= j < pages ==> #[trigger] mapper.walk((HEAP_START + j * PAGE_SIZE) as u64)
                    == old(mapper).walk((HEAP_START + j * PAGE_SIZE) as u64),
        decreases pages - k,
    {
        let page = HEAP_START + k * PAGE_SIZE;
        proof {
            assert(page % PAGE_SIZE == 0 && page < crate::paging::LOW_HALF_END && HEAP_START
                <= page < HEAP_START + HEAP_SIZE) by (nonlinear_arith)
                requires
                    page == HEAP_START + k * PAGE_SIZE,
                    0 <= k < HEAP_SIZE / PAGE_SIZE,
            ;
        }
        let ghost fa_pre = *frame_allocator;
        let frame = match frame_allocator.allocate_frame() {
            Ok(f) => f,
            Err(_) => {
                proof {
                    assert forall|g: u64| frame_allocator.valid_frame(g) implies g
                        < frame_allocator.cursor_spec() by {
                        assert(fa_pre.valid_frame(g) == frame_allocator.valid_frame(g));
                    };
                }
                return Err(MapToError::FrameAllocationFailed);
            },
        };
        let ghost m_before = *mapper;
        match mapper.map_to(page, frame, flags, frame_allocator) {
            Ok(()) => {},
            Err(MapToError::FrameAllocationFailed) => {
                return Err(MapToError::FrameAllocationFailed);
            },
            Err(MapToError::PageAlreadyMapped(f0)) => {
                proof {
                    assert(old(mapper).walk((HEAP_START + k * PAGE_SIZE) as u64) matches Some(
                        (fw, fl),
                    ) && fw == f0);
                }
                return Err(MapToError::PageAlreadyMapped(f0));
            },
        }
        proof {
            assert forall|j: u64|
                j < k + 1 implies (#[trigger] mapper.walk((HEAP_START + j * PAGE_SIZE) as u64))
                is Some by {
                if j < k {
                    let qj = (HEAP_START + j * PAGE_SIZE) as u64;
                    assert(qj % PAGE_SIZE == 0 && qj < crate::paging::LOW_HALF_END && qj
                        != page) by (nonlinear_arith)
                        requires
                            qj == HEAP_START + j * PAGE_SIZE,
                            page == HEAP_START + k * PAGE_SIZE,
                            0 <= j < k,
                            k < HEAP_SIZE / PAGE_SIZE,
                    ;
                    assert(mapper.walk(qj) == m_before.walk(qj));
                }
            };
            assert forall|j: u64|
                k + 1 <= j < pages implies #[trigger] mapper.walk(
                (HEAP_START + j * PAGE_SIZE) as u64,
            ) == old(mapper).walk((HEAP_START + j * PAGE_SIZE) as u64) by {
                let qj = (HEAP_START + j * PAGE_SIZE) as u64;
                assert(qj % PAGE_SIZE == 0 && qj < crate::paging::LOW_HALF_END && qj
                    != page) by (nonlinear_arith)
                    requires
                        qj == HEAP_START + j * PAGE_SIZE,
                        page == HEAP_START + k * PAGE_SIZE,
                        k < j < HEAP_SIZE / PAGE_SIZE,
                        k >= 0,
                ;
                assert(mapper.walk(qj) == m_before.walk(qj));
            };
        }
        k += 1;
    }
    Ok(HeapAllocator::new(HEAP_START, HEAP_SIZE))
}

/// Law: a balanced allocate/deallocate pair leaves the heap's free space and
/// live set exactly as they were. The two relations below are those the
/// allocator's own contracts establish for an allocation and the matching
/// deallocation.
pub proof fn lemma_heap_round_trip(
    h0: HeapAllocator,
    h1: HeapAllocator,
    h2: HeapAllocator,
    p: u64,
    size: u64,
    align: u64,
)
    requires
        h1.free_total() == h0.free_total() - size,
        h1.live_spec() == h0.live_spec().insert(p, (size, align)),
        !h0.live_spec().contains_key(p),
        h2.free_total() == h1.free_total() + size,
        h2.live_spec() == h1.live_spec().remove(p),
    ensures
        h2.free_total() == h0.free_total(),
        h2.live_spec() =~= h0.live_spec(),
{
}

/// Law: two live allocations never overlap.
pub proof fn lemma_live_disjoint(h: HeapAllocator, p1: u64, p2: u64)
    requires
        h.wf(),
        h.live_spec().contains_key(p1),
        h.live_spec().contains_key(p2),
        p1 != p2,
    ensures
        p1 + h.live_spec()[p1].0 <= p2 || p2 + h.live_spec()[p2].0 <= p1,
{
}

/// How the freed block `[ptr, ptr + size)` relates to its neighbours in the
/// free list: merged with neither, the left one, the right one, or both.
pub open spec fn merge_shape(
    f0: Seq<(u64, u64)>,
    k: int,
    rj: int,
    ptr: u64,
    size: u64,
    ms: u64,
    me: u64,
) -> bool {
    ||| (ms == ptr && me == ptr + size && rj == k)
    ||| (ms != ptr && rj == k + 1 && ms == f0[k].0 && f0[k].1 == ptr && me == ptr + size)
    ||| (ms == ptr && rj == k + 1 && me == f0[k].1 && f0[k].0 == ptr + size)
    ||| (ms != ptr && rj == k + 2 && ms == f0[k].0 && f0[k].1 == ptr && me == f0[k + 1].1 && f0[k
        + 1].0 == ptr + size)
}

/// The remainders of a block `[bs, be)` after removing `[p, p + size)`.
pub open spec fn carve_pieces(bs: u64, be: u64, p: u64, size: u64) -> Seq<(u64, u64)> {
    if bs < p && p + size < be {
        seq![(bs, p), ((p + size) as u64, be)]
    } else if bs < p {
        seq![(bs, p)]
    } else if p + size < be {
        seq![((p + size) as u64, be)]
    } else {
        Seq::empty()
    }
}

} // verus!
