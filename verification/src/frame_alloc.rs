//! Physical frame allocator: hands out 4 KiB frames from the usable regions
//! of a memory map, in ascending address order, skipping every frame that
//! overlaps a range occupied by the kernel image or boot structures. A frame
//! is issued at most once; there is no deallocation path.

use vstd::prelude::*;
use crate::memory_map::FrameRange;
use crate::memory_map::MemoryMap;
use crate::memory_map::MemoryRegion;
use crate::memory_map::MemoryRegionType;
use crate::memory_map::PAGE_SIZE;

verus! {

#[derive(Clone, Copy, PartialEq, Eq, Structural, Debug)]
pub enum FrameAllocError {
    /// The memory map holds no usable region at all.
    NoUsableRegions,
    /// Every usable frame has already been handed out.
    Exhausted,
}

pub open spec fn frame_aligned(f: u64) -> bool {
    f % PAGE_SIZE == 0
}

/// The frame starting at `f` shares at least one address with `kr`.
pub open spec fn range_overlaps_frame(kr: FrameRange, f: u64) -> bool {
    kr.start < kr.end && f < kr.end && kr.start < f + PAGE_SIZE
}

/// The whole frame `[f, f + PAGE_SIZE)` lies inside a usable region.
pub open spec fn frame_in_region(reg: MemoryRegion, f: u64) -> bool {
    reg.region_type == MemoryRegionType::Usable && reg.range.start <= f
        && f + PAGE_SIZE <= reg.range.end
}

/// The frame starting at `f` overlaps none of the given ranges.
pub open spec fn frame_clear_of(kernel: Seq<FrameRange>, f: u64) -> bool {
    forall|j: int| 0 <= j < kernel.len() ==> !range_overlaps_frame(#[trigger] kernel[j], f)
}

/// `f` may be handed out: aligned, inside a usable region, clear of the
/// kernel-occupied ranges.
pub open spec fn frame_valid(regions: Seq<MemoryRegion>, kernel: Seq<FrameRange>, f: u64) -> bool {
    frame_aligned(f) && (exists|i: int|
        0 <= i < regions.len() && frame_in_region(#[trigger] regions[i], f)) && frame_clear_of(
        kernel,
        f,
    )
}

/// Rounds `a` up to the next frame boundary.
fn align_up(a: u64) -> (r: u64)
    requires
        a <= u64::MAX - (PAGE_SIZE - 1),
    ensures
        r % PAGE_SIZE == 0,
        a <= r,
        r < a + PAGE_SIZE,
{
    let m = a % PAGE_SIZE;
    if m == 0 {
        a
    } else {
        a + (PAGE_SIZE - m)
    }
}

proof fn lemma_aligned_at_least(a: u64, r: u64, g: u64)
    requires
        r % PAGE_SIZE == 0,
        a <= r,
        r < a + PAGE_SIZE,
        g % PAGE_SIZE == 0,
        g >= a,
    ensures
        g >= r,
{
    if g < r {
        assert((r as int) - (g as int) >= PAGE_SIZE as int) by (nonlinear_arith)
            requires
                (r as int) % (PAGE_SIZE as int) == 0,
                (g as int) % (PAGE_SIZE as int) == 0,
                (g as int) < (r as int),
                (g as int) >= 0,
        ;
        assert(false);
    }
}

/// A frame allocator over the usable regions of a finalized memory map. Its
/// cursor only ever advances, so no frame is issued twice.
pub struct BootInfoFrameAllocator {
    regions: Vec<MemoryRegion>,
    kernel: Vec<FrameRange>,
    cursor: u64,
}

impl BootInfoFrameAllocator {
    pub closed spec fn regions_spec(self) -> Seq<MemoryRegion> {
        self.regions@
    }

    pub closed spec fn kernel_spec(self) -> Seq<FrameRange> {
        self.kernel@
    }

    /// All frames strictly below the cursor are spent; the next frame handed
    /// out is the smallest valid one at or above it.
    pub closed spec fn cursor_spec(self) -> u64 {
        self.cursor
    }

    pub open spec fn wf(self) -> bool {
        frame_aligned(self.cursor_spec())
    }

    /// `f` is a frame this allocator may ever hand out.
    pub open spec fn valid_frame(self, f: u64) -> bool {
        frame_valid(self.regions_spec(), self.kernel_spec(), f)
    }

    /// Builds an allocator over `map`, never to return a frame overlapping
    /// one of `kernel_ranges` (the loaded kernel image and boot structures).
    /// Fails exactly when the map holds no usable region.
    pub fn init(map: &MemoryMap, kernel_ranges: &Vec<FrameRange>) -> (r: Result<
        BootInfoFrameAllocator,
        FrameAllocError,
    >)
        ensures
            match r {
                Ok(a) => a.wf() && a.regions_spec() == map@ && a.kernel_spec() == kernel_ranges@
                    && a.cursor_spec() == 0 && (exists|i: int|
                    0 <= i < map@.len() && (#[trigger] map@[i]).region_type
                        == MemoryRegionType::Usable),
                Err(e) => e == FrameAllocError::NoUsableRegions && (forall|i: int|
                    0 <= i < map@.len() ==> (#[trigger] map@[i]).region_type
                        != MemoryRegionType::Usable),
            },
    {
        let src = map.regions();
        let mut regions: Vec<MemoryRegion> = Vec::new();
        let mut any_usable = false;
        let mut i: usize = 0;
        while i < src.len()
            invariant
                i <= src.len(),
                src@ == map@,
                regions@ == map@.take(i as int),
                any_usable == exists|j: int|
                    0 <= j < i && (#[trigger] map@[j]).region_type == MemoryRegionType::Usable,
            decreases src.len() - i,
        {
            let reg = src[i];
            if reg.region_type == MemoryRegionType::Usable {
                any_usable = true;
            }
            regions.push(reg);
            proof {
                assert(regions@ =~= map@.take(i + 1 as int));
            }
            i += 1;
        }
        if !any_usable {
            return Err(FrameAllocError::NoUsableRegions);
        }
        let mut kernel: Vec<FrameRange> = Vec::new();
        let mut j: usize = 0;
        while j < kernel_ranges.len()
            invariant
                j <= kernel_ranges.len(),
                kernel@ == kernel_ranges@.take(j as int),
            decreases kernel_ranges.len() - j,
        {
            kernel.push(kernel_ranges[j]);
            proof {
                assert(kernel@ =~= kernel_ranges@.take(j + 1 as int));
            }
            j += 1;
        }
        proof {
            assert(regions@ =~= map@);
            assert(kernel@ =~= kernel_ranges@);
        }
        Ok(BootInfoFrameAllocator { regions, kernel, cursor: 0 })
    }

    /// A frame counts toward the scan over the first `upto` regions.
    pub open spec fn candidate(self, g: u64, upto: int) -> bool {
        frame_aligned(g) && g >= self.cursor_spec() && frame_clear_of(self.kernel_spec(), g)
            && (exists|j: int| 0 <= j < upto && frame_in_region(#[trigger] self.regions_spec()[j], g))
    }

    /// Returns the smallest valid frame not yet issued, advancing the cursor
    /// past it, or reports exhaustion when none is left.
    pub fn allocate_frame(&mut self) -> (r: Result<u64, FrameAllocError>)
        requires
            old(self).wf(),
        ensures
            final(self).wf(),
            final(self).regions_spec() == old(self).regions_spec(),
            final(self).kernel_spec() == old(self).kernel_spec(),
            match r {
                Ok(f) => old(self).valid_frame(f) && f >= old(self).cursor_spec()
                    && (forall|g: u64|
                        old(self).valid_frame(g) && g >= old(self).cursor_spec() ==> g >= f)
                    && final(self).cursor_spec() == f + PAGE_SIZE,
                Err(e) => e == FrameAllocError::Exhausted
                    && final(self).cursor_spec() == old(self).cursor_spec()
                    && (forall|g: u64| old(self).valid_frame(g) ==> g < old(self).cursor_spec()),
            },
    {
        let mut best: Option<u64> = None;
        let n = self.regions.len();
        let mut i: usize = 0;
        while i < n
            invariant
                i <= n,
                n == self.regions_spec().len(),
                *self == *old(self),
                self.wf(),
                match best {
                    Some(b) => self.candidate(b, i as int) && (forall|g: u64|
                        self.candidate(g, i as int) ==> g >= b),
                    None => forall|g: u64| !self.candidate(g, i as int),
                },
            decreases n - i,
        {
            let reg = self.regions[i];
            let ghost pre_best = best;
            if reg.region_type == MemoryRegionType::Usable {
                match Self::region_min_frame(&reg, &self.kernel, self.cursor) {
                    Some(f) => {
                        proof {
                            assert(self.regions_spec()[i as int] == reg);
                        }
                        match best {
                            None => {
                                best = Some(f);
                            },
                            Some(b) => {
                                if f < b {
                                    best = Some(f);
                                }
                            },
                        }
                    },
                    None => {},
                }
            }
            proof {
                let ii = i as int;
                let i1 = ii + 1;
                match best {
                    Some(nb) => {
                        assert(self.candidate(nb, i1));
                        assert forall|g: u64| #[trigger] self.candidate(g, i1) implies g >= nb by {
                            let j = choose|j: int|
                                0 <= j < i1 && frame_in_region(
                                    #[trigger] self.regions_spec()[j],
                                    g,
                                );
                            if j < ii {
                                assert(self.candidate(g, ii));
                            } else {
                                assert(frame_in_region(self.regions_spec()[ii], g));
                            }
                        };
                    },
                    None => {
                        assert forall|g: u64| !(#[trigger] self.candidate(g, i1)) by {
                            if self.candidate(g, i1) {
                                let j = choose|j: int|
                                    0 <= j < i1 && frame_in_region(
                                        #[trigger] self.regions_spec()[j],
                                        g,
                                    );
                                if j < ii {
                                    assert(self.candidate(g, ii));
                                } else {
                                    assert(frame_in_region(self.regions_spec()[ii], g));
                                }
                            }
                        };
                    },
                }
            }
            i += 1;
        }
        match best {
            Some(f) => {
                proof {
                    assert forall|g: u64|
                        old(self).valid_frame(g) && g >= old(self).cursor_spec() implies g
                        >= f by {
                        assert(self.candidate(g, n as int));
                    };
                    assert(self.candidate(f, n as int));
                }
                self.cursor = f + PAGE_SIZE;
                Ok(f)
            },
            None => {
                proof {
                    assert forall|g: u64|
                        old(self).valid_frame(g) implies g < old(self).cursor_spec() by {
                        if g >= old(self).cursor_spec() {
                            assert(self.candidate(g, n as int));
                        }
                    };
                }
                Err(FrameAllocError::Exhausted)
            },
        }
    }

    /// Law: frames come out in strictly ascending order, so no frame is ever
    /// issued twice. The relations below are what `allocate_frame`'s
    /// contract establishes for two successive successful calls.
    pub proof fn lemma_frames_distinct(
        a0: BootInfoFrameAllocator,
        a1: BootInfoFrameAllocator,
        f1: u64,
        f2: u64,
    )
        requires
            f1 >= a0.cursor_spec(),
            a1.cursor_spec() == f1 + PAGE_SIZE,
            f2 >= a1.cursor_spec(),
        ensures
            f2 > f1,
    {
    }

    /// Law: over any run of successful allocations, the issued frames are
    /// strictly ascending, hence pairwise distinct: no frame is ever issued
    /// twice. `frames[i]` is the result of the `i`-th call, `cursors[i]` the
    /// cursor before it; the two relations required are exactly what
    /// `allocate_frame`'s contract establishes for each successful call.
    pub proof fn lemma_issued_frames_distinct(frames: Seq<u64>, cursors: Seq<u64>)
        requires
            cursors.len() == frames.len() + 1,
            forall|i: int|
                0 <= i < frames.len() ==> #[trigger] frames[i] >= cursors[i] && cursors[i + 1]
                    == frames[i] + PAGE_SIZE,
        ensures
            forall|i: int, j: int| 0 <= i < j < frames.len() ==> frames[i] < frames[j],
    {
        assert forall|i: int, j: int| 0 <= i < j < frames.len() implies frames[i] < frames[j] by {
            Self::lemma_cursors_monotone(frames, cursors, i + 1, j);
            assert(frames[i] < cursors[i + 1]);
            assert(cursors[j] <= frames[j]);
        };
    }

    /// The cursor never moves backwards across successful allocations.
    proof fn lemma_cursors_monotone(frames: Seq<u64>, cursors: Seq<u64>, i: int, j: int)
        requires
            cursors.len() == frames.len() + 1,
            forall|k: int|
                0 <= k < frames.len() ==> #[trigger] frames[k] >= cursors[k] && cursors[k + 1]
                    == frames[k] + PAGE_SIZE,
            0 <= i <= j < cursors.len(),
        ensures
            cursors[i] <= cursors[j],
        decreases j - i,
    {
        if i < j {
            assert(frames[i] >= cursors[i]);
            Self::lemma_cursors_monotone(frames, cursors, i + 1, j);
        }
    }

    /// Law: once the allocator reports exhaustion its state is unchanged, so
    /// every later call reports exhaustion as well; and exhaustion is
    /// reported exactly when no valid frame at or past the cursor remains.
    pub proof fn lemma_exhaustion_is_final(a: BootInfoFrameAllocator, g: u64)
        requires
            forall|h: u64| a.valid_frame(h) ==> h < a.cursor_spec(),
            a.valid_frame(g),
        ensures
            g < a.cursor_spec(),
    {
    }

    /// The smallest frame at or above `base` that lies wholly inside `reg`
    /// and clear of every range in `kernel`; `None` when the region holds no
    /// such frame.
    fn region_min_frame(reg: &MemoryRegion, kernel: &Vec<FrameRange>, base: u64) -> (r: Option<
        u64,
    >)
        requires
            frame_aligned(base),
            reg.region_type == MemoryRegionType::Usable,
        ensures
            match r {
                Some(f) => frame_aligned(f) && f >= base && frame_in_region(*reg, f)
                    && frame_clear_of(kernel@, f) && (forall|g: u64|
                    frame_aligned(g) && g >= base && frame_clear_of(kernel@, g) && frame_in_region(
                        *reg,
                        g,
                    ) ==> g >= f),
                None => forall|g: u64|
                    frame_aligned(g) && g >= base && frame_clear_of(kernel@, g) ==> !frame_in_region(
                        *reg,
                        g,
                    ),
            },
    {
        let e = reg.range.end;
        let s = reg.range.start;
        if e < PAGE_SIZE {
            return None;
        }
        let lim = e - PAGE_SIZE;
        // First candidate: the smallest aligned address at or above both the
        // cursor and the region start.
        let lo = if s <= base {
            base
        } else {
            s
        };
        if lo > u64::MAX - (PAGE_SIZE - 1) {
            proof {
                assert forall|g: u64|
                    frame_aligned(g) && g >= base && frame_clear_of(kernel@, g)
                        implies !frame_in_region(*reg, g) by {
                    if frame_in_region(*reg, g) {
                        assert(g >= lo);
                        assert(g + PAGE_SIZE <= e);
                        assert(false);
                    }
                };
            }
            return None;
        }
        let mut f = align_up(lo);
        proof {
            assert forall|g: u64|
                frame_aligned(g) && g >= base && g < f implies !frame_in_region(*reg, g) by {
                if g >= lo {
                    lemma_aligned_at_least(lo, f, g);
                    assert(false);
                } else {
                    assert(g < s);
                }
            };
        }
        if f > lim {
            proof {
                assert forall|g: u64|
                    frame_aligned(g) && g >= base && frame_clear_of(kernel@, g)
                        implies !frame_in_region(*reg, g) by {
                    if frame_in_region(*reg, g) {
                        assert(g >= lo);
                        lemma_aligned_at_least(lo, f, g);
                        assert(g + PAGE_SIZE > e);
                        assert(false);
                    }
                };
            }
            return None;
        }
        loop
            invariant
                frame_aligned(base),
                frame_aligned(f),
                f >= base,
                f >= s,
                f <= lim,
                lim == e - PAGE_SIZE,
                e == reg.range.end,
                s == reg.range.start,
                e >= PAGE_SIZE,
                reg.region_type == MemoryRegionType::Usable,
                forall|g: u64|
                    frame_aligned(g) && g >= base && g < f && frame_clear_of(kernel@, g)
                        ==> !frame_in_region(*reg, g),
            decreases lim - f,
        {
            // Scan the kernel-occupied ranges for one the candidate overlaps.
            let mut hit: Option<u64> = None;
            let mut j: usize = 0;
            while j < kernel.len() && hit.is_none()
                invariant
                    j <= kernel@.len(),
                    f <= lim,
                    lim == e - PAGE_SIZE,
                    e >= PAGE_SIZE,
                    match hit {
                        Some(kend) => exists|jj: int|
                            0 <= jj < kernel@.len() && range_overlaps_frame(
                                #[trigger] kernel@[jj],
                                f,
                            ) && kernel@[jj].end == kend,
                        None => forall|jj: int|
                            0 <= jj < j ==> !range_overlaps_frame(#[trigger] kernel@[jj], f),
                    },
                decreases kernel@.len() - j,
            {
                let kr = kernel[j];
                if kr.start < kr.end && f < kr.end && kr.start < f + PAGE_SIZE {
                    hit = Some(kr.end);
                }
                j += 1;
            }
            match hit {
                None => {
                    return Some(f);
                },
                Some(kend) => {
                    let ghost jj = choose|jj: int|
                        0 <= jj < kernel@.len() && range_overlaps_frame(#[trigger] kernel@[jj], f)
                            && kernel@[jj].end == kend;
                    if kend > lim {
                        proof {
                            assert forall|g: u64|
                                frame_aligned(g) && g >= base && frame_clear_of(kernel@, g)
                                    implies !frame_in_region(*reg, g) by {
                                if frame_in_region(*reg, g) && g >= f {
                                    assert(g <= lim);
                                    assert(range_overlaps_frame(kernel@[jj], g));
                                }
                            };
                        }
                        return None;
                    }
                    let nf = align_up(kend);
                    proof {
                        assert(kend > f);
                        assert(nf >= kend);
                        assert(nf > f);
                        assert forall|g: u64|
                            frame_aligned(g) && g >= f && g < nf implies !frame_clear_of(
                            kernel@,
                            g,
                        ) by {
                            if g >= kend {
                                lemma_aligned_at_least(kend, nf, g);
                                assert(false);
                            }
                            assert(g < kend);
                            assert(range_overlaps_frame(kernel@[jj], g));
                        };
                    }
                    if nf > lim {
                        proof {
                            assert forall|g: u64|
                                frame_aligned(g) && g >= base && frame_clear_of(kernel@, g)
                                    implies !frame_in_region(*reg, g) by {
                                if frame_in_region(*reg, g) && g >= f {
                                    assert(g <= lim);
                                    assert(g < nf);
                                }
                            };
                        }
                        return None;
                    }
                    f = nf;
                },
            }
        }
    }
}

} // verus!
