//! Physical memory map: an append-only collection of address regions,
//! classified as usable or reserved, with the invariant that usable regions
//! never overlap. Adding a region clips away any previously usable address
//! it covers, so memory backing a device (such as a framebuffer) can never
//! be handed out by the frame allocator afterwards.

use vstd::prelude::*;

verus! {

/// Size in bytes of one physical page frame.
pub const PAGE_SIZE: u64 = 4096;

#[derive(Clone, Copy, PartialEq, Eq, Structural, Debug)]
pub enum MemoryRegionType {
    Usable,
    Reserved,
}

/// A half-open range `[start, end)` of physical addresses.
#[derive(Clone, Copy, PartialEq, Eq, Structural, Debug)]
pub struct FrameRange {
    pub start: u64,
    pub end: u64,
}

impl FrameRange {
    pub open spec fn wf_spec(self) -> bool {
        self.start <= self.end
    }

    pub open spec fn contains_addr(self, a: u64) -> bool {
        self.start <= a && a < self.end
    }

    /// The set of addresses the range covers.
    pub open spec fn addr_set(self) -> Set<u64> {
        Set::new(|a: u64| self.start <= a && a < self.end)
    }

    pub fn new(start: u64, end: u64) -> (r: FrameRange)
        requires
            start <= end,
        ensures
            r.start == start,
            r.end == end,
    {
        FrameRange { start, end }
    }

    pub fn start_addr(&self) -> (r: u64)
        ensures
            r == self.start,
    {
        self.start
    }

    pub fn end_addr(&self) -> (r: u64)
        ensures
            r == self.end,
    {
        self.end
    }
}

/// Two ranges share no address (an empty range shares none with anything).
pub open spec fn disjoint_ranges(a: FrameRange, b: FrameRange) -> bool {
    a.end <= b.start || b.end <= a.start || a.end <= a.start || b.end <= b.start
}

#[derive(Clone, Copy, PartialEq, Eq, Structural, Debug)]
pub struct MemoryRegion {
    pub range: FrameRange,
    pub region_type: MemoryRegionType,
}

pub open spec fn regions_wf(s: Seq<MemoryRegion>) -> bool {
    forall|i: int| 0 <= i < s.len() ==> (#[trigger] s[i]).range.wf_spec()
}

/// No two usable regions overlap.
pub open spec fn usable_disjoint(s: Seq<MemoryRegion>) -> bool {
    forall|i: int, j: int|
        0 <= i < s.len() && 0 <= j < s.len() && i != j
            && (#[trigger] s[i]).region_type == MemoryRegionType::Usable
            && (#[trigger] s[j]).region_type == MemoryRegionType::Usable
            ==> disjoint_ranges(s[i].range, s[j].range)
}

/// The set of physical addresses that some usable region covers.
pub open spec fn usable_set(s: Seq<MemoryRegion>) -> Set<u64> {
    Set::new(|a: u64|
        exists|i: int|
            0 <= i < s.len() && (#[trigger] s[i]).region_type == MemoryRegionType::Usable
                && s[i].range.contains_addr(a))
}

/// One memory area as the firmware reports it: a start address, a byte
/// length, and the firmware's numeric type code (code 1 means available).
#[derive(Clone, Copy, PartialEq, Eq, Structural, Debug)]
pub struct FirmwareMemoryArea {
    pub start: u64,
    pub length: u64,
    pub typ: u32,
}

/// Firmware type code 1 is the only code that means usable RAM; every other
/// code is treated conservatively as reserved.
pub open spec fn area_is_usable(a: FirmwareMemoryArea) -> bool {
    a.typ == 1u32
}

/// The address range an area describes, its end saturated at the top of the
/// address space.
pub open spec fn area_range(a: FirmwareMemoryArea) -> FrameRange {
    FrameRange {
        start: a.start,
        end: if a.start + a.length > u64::MAX { u64::MAX } else { (a.start + a.length) as u64 },
    }
}

/// The set of addresses left usable after folding the firmware areas, in
/// order, into an initially empty map: an area marks its range usable or
/// reserved, later areas overriding earlier ones.
pub open spec fn firmware_usable_set(s: Seq<FirmwareMemoryArea>) -> Set<u64>
    decreases s.len(),
{
    if s.len() == 0 {
        Set::empty()
    } else {
        let prev = firmware_usable_set(s.drop_last());
        if area_is_usable(s.last()) {
            prev + area_range(s.last()).addr_set()
        } else {
            prev - area_range(s.last()).addr_set()
        }
    }
}

/// The pieces of `reg` that survive clipping against `rng`: a usable region
/// the range overlaps keeps only its parts outside the range; anything else
/// stays whole.
pub open spec fn clip_region_spec(reg: MemoryRegion, rng: FrameRange) -> Seq<MemoryRegion> {
    if reg.region_type == MemoryRegionType::Usable && reg.range.start < rng.end && rng.start
        < reg.range.end {
        let left = MemoryRegion {
            range: FrameRange { start: reg.range.start, end: rng.start },
            region_type: MemoryRegionType::Usable,
        };
        let right = MemoryRegion {
            range: FrameRange { start: rng.end, end: reg.range.end },
            region_type: MemoryRegionType::Usable,
        };
        if reg.range.start < rng.start && rng.end < reg.range.end {
            seq![left, right]
        } else if reg.range.start < rng.start {
            seq![left]
        } else if rng.end < reg.range.end {
            seq![right]
        } else {
            Seq::empty()
        }
    } else {
        seq![reg]
    }
}

pub open spec fn clip_regions_spec(s: Seq<MemoryRegion>, rng: FrameRange) -> Seq<MemoryRegion>
    decreases s.len(),
{
    if s.len() == 0 {
        Seq::empty()
    } else {
        clip_region_spec(s[0], rng) + clip_regions_spec(s.drop_first(), rng)
    }
}

/// What `add_region` does to the region list: clip every earlier region
/// against the new range, then append the new region.
pub open spec fn add_region_spec(s: Seq<MemoryRegion>, region: MemoryRegion) -> Seq<MemoryRegion> {
    clip_regions_spec(s, region.range).push(region)
}

proof fn lemma_clip_regions_push(s: Seq<MemoryRegion>, x: MemoryRegion, rng: FrameRange)
    ensures
        clip_regions_spec(s.push(x), rng) == clip_regions_spec(s, rng) + clip_region_spec(x, rng),
    decreases s.len(),
{
    if s.len() == 0 {
        assert(s.push(x).drop_first() =~= Seq::<MemoryRegion>::empty());
        assert(s.push(x)[0] == x);
        assert(clip_regions_spec(Seq::<MemoryRegion>::empty(), rng)
            =~= Seq::<MemoryRegion>::empty());
        assert(clip_regions_spec(s.push(x), rng) == clip_region_spec(x, rng) + clip_regions_spec(
            s.push(x).drop_first(),
            rng,
        ));
        assert(clip_region_spec(x, rng) + Seq::<MemoryRegion>::empty() =~= clip_region_spec(
            x,
            rng,
        ));
        assert(clip_regions_spec(s, rng) + clip_region_spec(x, rng) =~= clip_region_spec(x, rng));
    } else {
        assert(s.push(x).drop_first() =~= s.drop_first().push(x));
        assert(s.push(x)[0] == s[0]);
        lemma_clip_regions_push(s.drop_first(), x, rng);
        assert(clip_regions_spec(s.push(x), rng) =~= clip_regions_spec(s, rng) + clip_region_spec(
            x,
            rng,
        ));
    }
}

/// The region of the map that one firmware area becomes.
pub open spec fn area_region(a: FirmwareMemoryArea) -> MemoryRegion {
    MemoryRegion {
        range: area_range(a),
        region_type: if area_is_usable(a) {
            MemoryRegionType::Usable
        } else {
            MemoryRegionType::Reserved
        },
    }
}

/// The region list that folding the firmware areas, in order, through
/// `add_region` produces.
pub open spec fn firmware_regions(s: Seq<FirmwareMemoryArea>) -> Seq<MemoryRegion>
    decreases s.len(),
{
    if s.len() == 0 {
        Seq::empty()
    } else {
        add_region_spec(firmware_regions(s.drop_last()), area_region(s.last()))
    }
}

/// An ordered collection of memory regions. Built once from firmware data,
/// then extended by `add_region` to reserve ranges discovered later.
pub struct MemoryMap {
    regions: Vec<MemoryRegion>,
}

impl View for MemoryMap {
    type V = Seq<MemoryRegion>;

    closed spec fn view(&self) -> Seq<MemoryRegion> {
        self.regions@
    }
}

pub open spec fn total_usable_pages_spec(s: Seq<MemoryRegion>) -> int
    decreases s.len(),
{
    if s.len() == 0 {
        0
    } else {
        total_usable_pages_spec(s.drop_last())
            + if s.last().region_type == MemoryRegionType::Usable {
                (s.last().range.end - s.last().range.start) / (PAGE_SIZE as int)
            } else {
                0
            }
    }
}

proof fn lemma_usable_set_push(s: Seq<MemoryRegion>, r: MemoryRegion)
    ensures
        usable_set(s.push(r)) == if r.region_type == MemoryRegionType::Usable {
            usable_set(s) + r.range.addr_set()
        } else {
            usable_set(s)
        },
{
    let t = s.push(r);
    assert forall|a: u64| usable_set(s).contains(a) implies usable_set(t).contains(a) by {
        let i = choose|i: int|
            0 <= i < s.len() && (#[trigger] s[i]).region_type == MemoryRegionType::Usable
                && s[i].range.contains_addr(a);
        assert(t[i] == s[i]);
    };
    if r.region_type == MemoryRegionType::Usable {
        assert forall|a: u64| r.range.contains_addr(a) implies usable_set(t).contains(a) by {
            assert(t[s.len() as int] == r);
        };
        assert forall|a: u64| usable_set(t).contains(a)
            implies (usable_set(s) + r.range.addr_set()).contains(a) by {
            let i = choose|i: int|
                0 <= i < t.len() && (#[trigger] t[i]).region_type == MemoryRegionType::Usable
                    && t[i].range.contains_addr(a);
            if i < s.len() {
                assert(s[i] == t[i]);
            }
        };
        assert(usable_set(t) =~= usable_set(s) + r.range.addr_set());
    } else {
        assert forall|a: u64| usable_set(t).contains(a) implies usable_set(s).contains(a) by {
            let i = choose|i: int|
                0 <= i < t.len() && (#[trigger] t[i]).region_type == MemoryRegionType::Usable
                    && t[i].range.contains_addr(a);
            assert(i < s.len());
            assert(s[i] == t[i]);
        };
        assert(usable_set(t) =~= usable_set(s));
    }
}

impl MemoryMap {
    /// The regions as a vector, oldest first.
    pub fn regions(&self) -> (r: &Vec<MemoryRegion>)
        ensures
            r@ == self@,
    {
        &self.regions
    }

    pub fn len(&self) -> (r: usize)
        ensures
            r == self@.len(),
    {
        self.regions.len()
    }

    pub open spec fn wf(self) -> bool {
        regions_wf(self@) && usable_disjoint(self@)
    }

    /// The set of addresses the map currently describes as usable.
    pub open spec fn usable(self) -> Set<u64> {
        usable_set(self@)
    }

    pub fn new() -> (r: MemoryMap)
        ensures
            r@ =~= Seq::<MemoryRegion>::empty(),
            r.wf(),
            r.usable() =~= Set::<u64>::empty(),
    {
        let r = MemoryMap { regions: Vec::new() };
        proof {
            assert forall|a: u64| !r.usable().contains(a) by {};
        }
        r
    }

    /// Builds the map from the firmware-reported areas, classifying each by
    /// its type code and clipping earlier usable space that a later area
    /// covers, so the result always satisfies the usable-disjoint invariant.
    pub fn from_memory_map_tag(areas: &Vec<FirmwareMemoryArea>) -> (r: MemoryMap)
        ensures
            r.wf(),
            r.usable() == firmware_usable_set(areas@),
            r@ == firmware_regions(areas@),
    {
        let mut map = MemoryMap::new();
        let n = areas.len();
        let mut k: usize = 0;
        while k < n
            invariant
                k <= n,
                n == areas@.len(),
                map.wf(),
                map.usable() == firmware_usable_set(areas@.take(k as int)),
                map@ == firmware_regions(areas@.take(k as int)),
            decreases n - k,
        {
            let a = areas[k];
            let end = if a.length > u64::MAX - a.start { u64::MAX } else { a.start + a.length };
            let region = MemoryRegion {
                range: FrameRange { start: a.start, end },
                region_type: if a.typ == 1u32 {
                    MemoryRegionType::Usable
                } else {
                    MemoryRegionType::Reserved
                },
            };
            proof {
                assert(region.range == area_range(a));
                assert(region == area_region(a));
            }
            map.add_region(region);
            proof {
                assert(areas@.take(k + 1 as int).drop_last() =~= areas@.take(k as int));
                assert(areas@.take(k + 1 as int).last() == a);
            }
            k += 1;
        }
        proof {
            assert(areas@.take(n as int) =~= areas@);
        }
        map
    }

    /// Appends `region`, first clipping every previously usable region that
    /// it overlaps: afterwards the addresses of `region.range` are usable
    /// exactly when `region` itself is usable.
    pub fn add_region(&mut self, region: MemoryRegion)
        requires
            old(self).wf(),
            region.range.wf_spec(),
        ensures
            final(self).wf(),
            final(self).usable() == if region.region_type == MemoryRegionType::Usable {
                old(self).usable() + region.range.addr_set()
            } else {
                old(self).usable() - region.range.addr_set()
            },
            final(self)@.len() >= 1 && final(self)@.last() == region,
            final(self)@ == add_region_spec(old(self)@, region),
    {
        let rng = region.range;
        let mut out: Vec<MemoryRegion> = Vec::new();
        let n = self.regions.len();
        let mut k: usize = 0;
        proof {
            assert(usable_set(out@) =~= usable_set(self@.take(0)) - rng.addr_set());
        }
        while k < n
            invariant
                k <= n,
                n == self@.len(),
                self@ == old(self)@,
                self.wf(),
                rng == region.range,
                rng.wf_spec(),
                regions_wf(out@),
                usable_disjoint(out@),
                usable_set(out@) == usable_set(self@.take(k as int)) - rng.addr_set(),
                out@ == clip_regions_spec(self@.take(k as int), rng),
            decreases n - k,
        {
            let reg = self.regions[k];
            let ghost pre = out@;
            if reg.region_type == MemoryRegionType::Usable && reg.range.start < rng.end
                && rng.start < reg.range.end {
                // The region overlaps previously usable space: keep only the
                // parts outside the new range.
                let left = MemoryRegion {
                    range: FrameRange { start: reg.range.start, end: rng.start },
                    region_type: MemoryRegionType::Usable,
                };
                let right = MemoryRegion {
                    range: FrameRange { start: rng.end, end: reg.range.end },
                    region_type: MemoryRegionType::Usable,
                };
                proof {
                    if reg.range.start < rng.start {
                        Self::lemma_piece_disjoint(pre, self@, k as int, left.range, rng);
                    }
                    if rng.end < reg.range.end {
                        Self::lemma_piece_disjoint(pre, self@, k as int, right.range, rng);
                    }
                    assert(disjoint_ranges(left.range, right.range));
                }
                if reg.range.start < rng.start {
                    proof {
                        lemma_usable_set_push(out@, left);
                    }
                    out.push(left);
                    proof {
                        assert forall|j: int|
                            0 <= j < out@.len()
                                && (#[trigger] out@[j]).region_type == MemoryRegionType::Usable
                                implies disjoint_ranges(out@[j].range, right.range) by {
                            if j < pre.len() {
                                assert(out@[j] == pre[j]);
                            } else {
                                assert(out@[j] == left);
                            }
                        };
                    }
                }
                if rng.end < reg.range.end {
                    proof {
                        lemma_usable_set_push(out@, right);
                    }
                    out.push(right);
                }
                proof {
                    assert(usable_set(out@) =~= usable_set(pre)
                        + (reg.range.addr_set() - rng.addr_set()));
                }
            } else {
                proof {
                    lemma_usable_set_push(out@, reg);
                    if reg.region_type == MemoryRegionType::Usable {
                        Self::lemma_piece_disjoint(out@, self@, k as int, reg.range, rng);
                        assert(reg.range.addr_set() - rng.addr_set() =~= reg.range.addr_set());
                    }
                }
                out.push(reg);
            }
            proof {
                assert(self@.take(k + 1 as int) =~= self@.take(k as int).push(self@[k as int]));
                lemma_usable_set_push(self@.take(k as int), self@[k as int]);
                assert(usable_set(out@) =~= usable_set(self@.take(k + 1 as int)) - rng.addr_set());
                lemma_clip_regions_push(self@.take(k as int), self@[k as int], rng);
                assert(out@ =~= pre + clip_region_spec(reg, rng));
                assert(out@ =~= clip_regions_spec(self@.take(k + 1 as int), rng));
            }
            k += 1;
        }
        proof {
            assert(self@.take(n as int) =~= self@);
            if region.region_type == MemoryRegionType::Usable {
                assert forall|j: int|
                    0 <= j < out@.len()
                        && (#[trigger] out@[j]).region_type == MemoryRegionType::Usable
                        implies disjoint_ranges(out@[j].range, rng) by {
                    if !disjoint_ranges(out@[j].range, rng) {
                        let a: u64 = if out@[j].range.start >= rng.start {
                            out@[j].range.start
                        } else {
                            rng.start
                        };
                        assert(out@[j].range.contains_addr(a));
                        assert(usable_set(out@).contains(a));
                        assert(!rng.addr_set().contains(a));
                        assert(false);
                    }
                };
            }
            lemma_usable_set_push(out@, region);
        }
        out.push(region);
        self.regions = out;
        proof {
            assert(self@ =~= add_region_spec(old(self)@, region));
            if region.region_type == MemoryRegionType::Usable {
                assert(usable_set(self@) =~= (usable_set(old(self)@) - rng.addr_set())
                    + rng.addr_set());
                assert(usable_set(self@) =~= usable_set(old(self)@) + rng.addr_set());
            } else {
                assert(usable_set(self@) =~= usable_set(old(self)@) - rng.addr_set());
            }
        }
    }

    /// A candidate piece carved out of the usable region at index `k` of `s`
    /// is disjoint from every usable region already in `out`, because the
    /// usable addresses of `out` all come from regions before `k`.
    proof fn lemma_piece_disjoint(
        out: Seq<MemoryRegion>,
        s: Seq<MemoryRegion>,
        k: int,
        piece: FrameRange,
        rng: FrameRange,
    )
        requires
            usable_disjoint(s),
            0 <= k < s.len(),
            s[k].region_type == MemoryRegionType::Usable,
            piece.start >= s[k].range.start,
            piece.end <= s[k].range.end,
            usable_set(out) == usable_set(s.take(k)) - rng.addr_set(),
        ensures
            forall|j: int|
                0 <= j < out.len() && (#[trigger] out[j]).region_type == MemoryRegionType::Usable
                    ==> disjoint_ranges(out[j].range, piece),
    {
        assert forall|j: int|
            0 <= j < out.len() && (#[trigger] out[j]).region_type == MemoryRegionType::Usable
                implies disjoint_ranges(out[j].range, piece) by {
            if !disjoint_ranges(out[j].range, piece) {
                let a: u64 = if out[j].range.start >= piece.start {
                    out[j].range.start
                } else {
                    piece.start
                };
                assert(out[j].range.contains_addr(a));
                assert(piece.contains_addr(a));
                assert(usable_set(out).contains(a));
                assert(usable_set(s.take(k)).contains(a));
                let i = choose|i: int|
                    0 <= i < s.take(k).len()
                        && (#[trigger] s.take(k)[i]).region_type == MemoryRegionType::Usable
                        && s.take(k)[i].range.contains_addr(a);
                assert(s[i] == s.take(k)[i]);
                assert(s[k].range.contains_addr(a));
                assert(disjoint_ranges(s[i].range, s[k].range));
                assert(false);
            }
        };
    }

    /// Counts the whole pages that fit in each usable region, summed over
    /// the map.
    pub fn total_usable_pages(&self) -> (r: u64)
        requires
            self.wf(),
            total_usable_pages_spec(self@) <= u64::MAX,
        ensures
            r == total_usable_pages_spec(self@),
    {
        let mut total: u64 = 0;
        let n = self.regions.len();
        let mut k: usize = 0;
        proof {
            Self::lemma_total_pages_monotone(self@, 0);
        }
        while k < n
            invariant
                k <= n,
                n == self@.len(),
                self.wf(),
                total_usable_pages_spec(self@) <= u64::MAX,
                total == total_usable_pages_spec(self@.take(k as int)),
                total_usable_pages_spec(self@.take(k as int)) <= total_usable_pages_spec(self@),
            decreases n - k,
        {
            let reg = self.regions[k];
            proof {
                assert(self@.take(k + 1 as int) =~= self@.take(k as int).push(self@[k as int]));
                assert(self@.take(k + 1 as int).drop_last() =~= self@.take(k as int));
                Self::lemma_total_pages_monotone(self@, k + 1 as int);
            }
            if reg.region_type == MemoryRegionType::Usable {
                let pages = (reg.range.end - reg.range.start) / PAGE_SIZE;
                total += pages;
            }
            k += 1;
        }
        proof {
            assert(self@.take(n as int) =~= self@);
        }
        total
    }

    /// The page total over a prefix never exceeds the total over the whole
    /// sequence, since every summand is non-negative.
    proof fn lemma_total_pages_monotone(s: Seq<MemoryRegion>, k: int)
        requires
            0 <= k <= s.len(),
            regions_wf(s),
        ensures
            total_usable_pages_spec(s.take(k)) <= total_usable_pages_spec(s),
        decreases s.len() - k,
    {
        if k < s.len() {
            assert(s.take(k + 1).drop_last() =~= s.take(k));
            assert(s.take(k + 1).last() == s[k]);
            Self::lemma_total_pages_monotone(s, k + 1);
        } else {
            assert(s.take(k) =~= s);
        }
    }
}

} // verus!
