//! Page-table mapper: owns a four-level page-table tree, maps 4 KiB virtual
//! pages to physical frames, and translates virtual addresses by walking the
//! tree. Missing intermediate tables are created from frames obtained from
//! the frame allocator and zero-initialized before being linked, so a partly
//! built mapping is never visible: every walk either finds a complete chain
//! or reports the page unmapped.

use vstd::prelude::*;
use crate::frame_alloc::BootInfoFrameAllocator;
use crate::memory_map::PAGE_SIZE;

verus! {

/// Number of entries in one page table.
pub const TABLE_LEN: usize = 512;

/// Lowest virtual address outside the low canonical half; the mapper manages
/// pages below it.
pub const LOW_HALF_END: u64 = 0x8000_0000_0000;

#[derive(Clone, Copy, PartialEq, Eq, Structural, Debug)]
pub struct PageFlags {
    pub writable: bool,
    pub user_accessible: bool,
    pub no_execute: bool,
    pub cache_disabled: bool,
}

impl PageFlags {
    /// Flags for ordinary kernel data pages.
    pub fn kernel_data() -> (r: PageFlags)
        ensures
            r == (PageFlags {
                writable: true,
                user_accessible: false,
                no_execute: true,
                cache_disabled: false,
            }),
    {
        PageFlags { writable: true, user_accessible: false, no_execute: true, cache_disabled: false }
    }

    /// Flags for device memory such as a framebuffer: read/write, no-execute,
    /// caching disabled.
    pub fn device_memory() -> (r: PageFlags)
        ensures
            r == (PageFlags {
                writable: true,
                user_accessible: false,
                no_execute: true,
                cache_disabled: true,
            }),
    {
        PageFlags { writable: true, user_accessible: false, no_execute: true, cache_disabled: true }
    }
}

/// One page-table entry: absent, a link to a lower-level table (the index of
/// that table plus the physical frame holding it), or a leaf mapping.
#[derive(Clone, Copy, PartialEq, Eq, Structural, Debug)]
pub enum PtEntry {
    Empty,
    Table { table: usize, frame: u64 },
    Leaf { frame: u64, flags: PageFlags },
}

pub struct PageTable {
    pub entries: Vec<PtEntry>,
}

impl PageTable {
    /// A fresh, zeroed table: every entry absent.
    fn empty() -> (r: PageTable)
        ensures
            r.entries@.len() == TABLE_LEN,
            forall|i: int| 0 <= i < TABLE_LEN ==> (#[trigger] r.entries@[i]) is Empty,
    {
        let mut entries: Vec<PtEntry> = Vec::new();
        let mut k: usize = 0;
        while k < TABLE_LEN
            invariant
                k <= TABLE_LEN,
                entries@.len() == k,
                forall|i: int| 0 <= i < k ==> (#[trigger] entries@[i]) is Empty,
            decreases TABLE_LEN - k,
        {
            entries.push(PtEntry::Empty);
            k += 1;
        }
        PageTable { entries }
    }
}

/// Index into the level-4 table for a virtual address (bits 39..47), and so
/// on down to level 1 (bits 12..20).
pub open spec fn idx4(va: u64) -> int {
    ((va >> 39) & 0x1ff) as int
}

pub open spec fn idx3(va: u64) -> int {
    ((va >> 30) & 0x1ff) as int
}

pub open spec fn idx2(va: u64) -> int {
    ((va >> 21) & 0x1ff) as int
}

pub open spec fn idx1(va: u64) -> int {
    ((va >> 12) & 0x1ff) as int
}

/// A page the mapper manages: page-aligned, in the low canonical half.
pub open spec fn page_mappable(page: u64) -> bool {
    page % PAGE_SIZE == 0 && page < LOW_HALF_END
}

/// Two mappable pages with the same four table indices are the same page.
proof fn lemma_indices_identify_page(a: u64, b: u64)
    requires
        page_mappable(a),
        page_mappable(b),
        idx4(a) == idx4(b),
        idx3(a) == idx3(b),
        idx2(a) == idx2(b),
        idx1(a) == idx1(b),
    ensures
        a == b,
{
    assert(a == b) by (bit_vector)
        requires
            a % 4096 == 0,
            b % 4096 == 0,
            a < 0x8000_0000_0000,
            b < 0x8000_0000_0000,
            (a >> 39) & 0x1ff == (b >> 39) & 0x1ff,
            (a >> 30) & 0x1ff == (b >> 30) & 0x1ff,
            (a >> 21) & 0x1ff == (b >> 21) & 0x1ff,
            (a >> 12) & 0x1ff == (b >> 12) & 0x1ff,
    ;
}

/// The mapper: table 0 is the top level; a fixed linear offset (established
/// by the bootloader) lets the kernel reach any table's physical frame.
pub struct PageMapper {
    tables: Vec<PageTable>,
    phys_offset: u64,
}

impl PageMapper {
    pub closed spec fn tables_spec(self) -> Seq<PageTable> {
        self.tables@
    }

    pub closed spec fn phys_offset_spec(self) -> u64 {
        self.phys_offset
    }

    pub open spec fn tables_len(self) -> int {
        self.tables_spec().len() as int
    }

    pub open spec fn entry(self, t: int, i: int) -> PtEntry {
        self.tables_spec()[t].entries@[i]
    }

    /// Table `t` links to table `c` at slot `i`.
    pub open spec fn edge(self, t: int, i: int, c: int) -> bool {
        0 <= t < self.tables_len() && 0 <= i < TABLE_LEN && (self.entry(t, i) matches
            PtEntry::Table { table, .. } && table as int == c)
    }

    pub open spec fn wf(self) -> bool {
        &&& self.tables_len() >= 1
        &&& forall|t: int|
            0 <= t < self.tables_len() ==> (#[trigger] self.tables_spec()[t]).entries@.len()
                == TABLE_LEN
        &&& forall|t: int, i: int|
            0 <= t < self.tables_len() && 0 <= i < TABLE_LEN && (#[trigger] self.entry(t, i) matches
                PtEntry::Table { table, .. }) ==> 1 <= self.entry(t, i)->table < self.tables_len()
        &&& forall|t1: int, i1: int, t2: int, i2: int, c: int|
            #[trigger] self.edge(t1, i1, c) && #[trigger] self.edge(t2, i2, c) ==> t1 == t2 && i1
                == i2
        &&& forall|t: int, i: int|
            0 <= t < self.tables_len() && 0 <= i < TABLE_LEN && (#[trigger] self.entry(t, i) matches
                PtEntry::Leaf { .. }) ==> self.entry(t, i)->Leaf_frame % PAGE_SIZE == 0
    }

    /// The mapping the tree encodes for a virtual address: the physical frame
    /// and flags at the end of the four-level chain, if every link exists.
    pub open spec fn walk(self, va: u64) -> Option<(u64, PageFlags)> {
        match self.entry(0, idx4(va)) {
            PtEntry::Table { table: t3, .. } => match self.entry(t3 as int, idx3(va)) {
                PtEntry::Table { table: t2, .. } => match self.entry(t2 as int, idx2(va)) {
                    PtEntry::Table { table: t1, .. } => match self.entry(t1 as int, idx1(va)) {
                        PtEntry::Leaf { frame, flags } => Some((frame, flags)),
                        _ => None,
                    },
                    _ => None,
                },
                _ => None,
            },
            _ => None,
        }
    }

    /// How many intermediate tables a mapping of `page` still lacks.
    pub open spec fn missing_tables(self, page: u64) -> int {
        match self.entry(0, idx4(page)) {
            PtEntry::Table { table: t3, .. } => match self.entry(t3 as int, idx3(page)) {
                PtEntry::Table { table: t2, .. } => match self.entry(t2 as int, idx2(page)) {
                    PtEntry::Table { .. } => 0,
                    _ => 1,
                },
                _ => 2,
            },
            _ => 3,
        }
    }

    /// A mapper over a fresh top-level table, with the given linear offset
    /// from physical to virtual addresses. Nothing is mapped yet.
    pub fn init(phys_offset: u64) -> (r: PageMapper)
        ensures
            r.wf(),
            r.phys_offset_spec() == phys_offset,
            forall|va: u64| #[trigger] r.walk(va) is None,
    {
        let mut tables: Vec<PageTable> = Vec::new();
        tables.push(PageTable::empty());
        let r = PageMapper { tables, phys_offset };
        proof {
            assert(forall|i: int| 0 <= i < TABLE_LEN ==> !((#[trigger] r.entry(0, i)) matches
                PtEntry::Table { .. }));
            assert forall|va: u64| #[trigger] r.walk(va) is None by {
                assert(0 <= idx4(va) < TABLE_LEN) by (bit_vector)
                    requires
                        idx4(va) == ((va >> 39) & 0x1ff) as int,
                ;
            };
        }
        r
    }

    pub fn phys_offset(&self) -> (r: u64)
        ensures
            r == self.phys_offset_spec(),
    {
        self.phys_offset
    }

    /// Maps `page` to `frame` with the given flags, creating and linking any
    /// missing intermediate tables from freshly allocated, zeroed frames.
    /// Fails when the page is already mapped to a different frame (leaving
    /// everything unchanged), or when the frame allocator runs out while a
    /// table is still missing (leaving every walk unchanged: a partly built
    /// chain is never observable as a mapping).
    pub fn map_to(
        &mut self,
        page: u64,
        frame: u64,
        flags: PageFlags,
        fa: &mut BootInfoFrameAllocator,
    ) -> (r: Result<(), MapToError>)
        requires
            old(self).wf(),
            page_mappable(page),
            frame % PAGE_SIZE == 0,
            old(fa).wf(),
        ensures
            final(self).wf(),
            final(fa).wf(),
            final(self).phys_offset_spec() == old(self).phys_offset_spec(),
            final(fa).regions_spec() == old(fa).regions_spec(),
            final(fa).kernel_spec() == old(fa).kernel_spec(),
            match r {
                Ok(()) => final(self).walk(page) == Some((frame, flags)) && (forall|q: u64|
                    page_mappable(q) && q != page ==> #[trigger] final(self).walk(q) == old(
                        self,
                    ).walk(q)) && (match old(self).walk(page) {
                    Some((fw, fl)) => fw == frame,
                    None => true,
                }),
                Err(MapToError::PageAlreadyMapped(f0)) => old(self).walk(page) matches Some(
                    (fw, fl),
                ) && fw == f0 && f0 != frame && *final(self) == *old(self) && *final(fa) == *old(
                    fa,
                ),
                Err(MapToError::FrameAllocationFailed) => (forall|q: u64|
                    page_mappable(q) ==> #[trigger] final(self).walk(q) == old(self).walk(q)) && (
                forall|g: u64| final(fa).valid_frame(g) ==> g < final(fa).cursor_spec())
                    && old(self).walk(page) is None,
            },
            old(self).missing_tables(page) == 0 && !(old(self).walk(page) matches Some((fw, fl))
                && fw != frame) ==> r is Ok,
    {
        proof {
            lemma_idx_bounds(page);
        }
        let i4 = ((page >> 39) & 0x1ff) as usize;
        let i3 = ((page >> 30) & 0x1ff) as usize;
        let i2 = ((page >> 21) & 0x1ff) as usize;
        let i1 = ((page >> 12) & 0x1ff) as usize;
        proof {
            assert(i4 < 512 && i3 < 512 && i2 < 512 && i1 < 512) by (bit_vector)
                requires
                    i4 == ((page >> 39) & 0x1ff) as usize,
                    i3 == ((page >> 30) & 0x1ff) as usize,
                    i2 == ((page >> 21) & 0x1ff) as usize,
                    i1 == ((page >> 12) & 0x1ff) as usize,
            ;
        }
        let ghost m0 = *self;
        // level 4 -> 3
        let e4 = {
            let tref = &self.tables[0];
            tref.entries[i4]
        };
        let t3: usize;
        match e4 {
            PtEntry::Table { table, .. } => {
                t3 = table;
            },
            _ => {
                let ghost fa_pre = *fa;
                let new_frame = match fa.allocate_frame() {
                    Ok(f) => f,
                    Err(_) => {
                        proof {
                            assert forall|g: u64| fa.valid_frame(g) implies g
                                < fa.cursor_spec() by {
                                assert(fa_pre.valid_frame(g) == fa.valid_frame(g));
                            };
                        }
                        return Err(MapToError::FrameAllocationFailed);
                    },
                };
                let n = self.tables.len();
                let ghost m_pre = *self;
                self.tables.push(PageTable::empty());
                let tref = &mut self.tables[0];
                tref.entries[i4] = PtEntry::Table { table: n, frame: new_frame };
                proof {
                    lemma_walk_after_link(m_pre, *self, 0, i4 as int, n as int, 0, 0, 0, 0);
                }
                t3 = n;
            },
        }
        proof {
            assert(self.wf());
            assert(self.edge(0, i4 as int, t3 as int));
            assert(forall|q: u64| #[trigger] self.walk(q) == m0.walk(q));
        }
        // level 3 -> 2
        let e3 = {
            let tref = &self.tables[t3];
            tref.entries[i3]
        };
        let t2: usize;
        match e3 {
            PtEntry::Table { table, .. } => {
                t2 = table;
            },
            _ => {
                let ghost fa_pre = *fa;
                let new_frame = match fa.allocate_frame() {
                    Ok(f) => f,
                    Err(_) => {
                        proof {
                            assert forall|g: u64| fa.valid_frame(g) implies g
                                < fa.cursor_spec() by {
                                assert(fa_pre.valid_frame(g) == fa.valid_frame(g));
                            };
                        }
                        return Err(MapToError::FrameAllocationFailed);
                    },
                };
                let n = self.tables.len();
                let ghost m_pre = *self;
                self.tables.push(PageTable::empty());
                let tref = &mut self.tables[t3];
                tref.entries[i3] = PtEntry::Table { table: n, frame: new_frame };
                proof {
                    lemma_walk_after_link(
                        m_pre,
                        *self,
                        t3 as int,
                        i3 as int,
                        n as int,
                        1,
                        i4 as int,
                        0,
                        0,
                    );
                }
                t2 = n;
            },
        }
        proof {
            assert(self.wf());
            assert(self.edge(0, i4 as int, t3 as int));
            assert(self.edge(t3 as int, i3 as int, t2 as int));
            assert(forall|q: u64| #[trigger] self.walk(q) == m0.walk(q));
        }
        // level 2 -> 1
        let e2 = {
            let tref = &self.tables[t2];
            tref.entries[i2]
        };
        let t1: usize;
        match e2 {
            PtEntry::Table { table, .. } => {
                t1 = table;
            },
            _ => {
                let ghost fa_pre = *fa;
                let new_frame = match fa.allocate_frame() {
                    Ok(f) => f,
                    Err(_) => {
                        proof {
                            assert forall|g: u64| fa.valid_frame(g) implies g
                                < fa.cursor_spec() by {
                                assert(fa_pre.valid_frame(g) == fa.valid_frame(g));
                            };
                        }
                        return Err(MapToError::FrameAllocationFailed);
                    },
                };
                let n = self.tables.len();
                let ghost m_pre = *self;
                self.tables.push(PageTable::empty());
                let tref = &mut self.tables[t2];
                tref.entries[i2] = PtEntry::Table { table: n, frame: new_frame };
                proof {
                    lemma_walk_after_link(
                        m_pre,
                        *self,
                        t2 as int,
                        i2 as int,
                        n as int,
                        2,
                        i4 as int,
                        t3 as int,
                        i3 as int,
                    );
                }
                t1 = n;
            },
        }
        proof {
            assert(self.wf());
            assert(self.edge(0, i4 as int, t3 as int));
            assert(self.edge(t3 as int, i3 as int, t2 as int));
            assert(self.edge(t2 as int, i2 as int, t1 as int));
            assert(forall|q: u64| #[trigger] self.walk(q) == m0.walk(q));
        }
        // level 1: the leaf
        let e1 = {
            let tref = &self.tables[t1];
            tref.entries[i1]
        };
        match e1 {
            PtEntry::Leaf { frame: f0, .. } => {
                if f0 != frame {
                    proof {
                        assert(self.walk(page) matches Some((fw, fl)) && fw == f0);
                    }
                    return Err(MapToError::PageAlreadyMapped(f0));
                }
            },
            _ => {},
        }
        let ghost m_pre = *self;
        let tref = &mut self.tables[t1];
        tref.entries[i1] = PtEntry::Leaf { frame, flags };
        proof {
            lemma_walk_after_leaf(
                m_pre,
                *self,
                page,
                t3 as int,
                t2 as int,
                t1 as int,
                frame,
                flags,
            );
        }
        Ok(())
    }

    /// Walks the hierarchy for a virtual address: the mapped frame plus the
    /// address's offset within its page, or nothing if any level is absent.
    pub fn translate_addr(&self, va: u64) -> (r: Option<u64>)
        requires
            self.wf(),
        ensures
            self.walk(va) is None ==> r is None,
            self.walk(va) matches Some((f, fl)) ==> f % PAGE_SIZE == 0 && f + va % PAGE_SIZE
                <= u64::MAX && r == Some((f + va % PAGE_SIZE) as u64),
    {
        proof {
            lemma_idx_bounds(va);
        }
        let i4 = ((va >> 39) & 0x1ff) as usize;
        let i3 = ((va >> 30) & 0x1ff) as usize;
        let i2 = ((va >> 21) & 0x1ff) as usize;
        let i1 = ((va >> 12) & 0x1ff) as usize;
        proof {
            assert(i4 < 512 && i3 < 512 && i2 < 512 && i1 < 512) by (bit_vector)
                requires
                    i4 == ((va >> 39) & 0x1ff) as usize,
                    i3 == ((va >> 30) & 0x1ff) as usize,
                    i2 == ((va >> 21) & 0x1ff) as usize,
                    i1 == ((va >> 12) & 0x1ff) as usize,
            ;
        }
        let e4 = {
            let tref = &self.tables[0];
            tref.entries[i4]
        };
        let t3 = match e4 {
            PtEntry::Table { table, .. } => table,
            _ => {
                return None;
            },
        };
        let e3 = {
            let tref = &self.tables[t3];
            tref.entries[i3]
        };
        let t2 = match e3 {
            PtEntry::Table { table, .. } => table,
            _ => {
                return None;
            },
        };
        let e2 = {
            let tref = &self.tables[t2];
            tref.entries[i2]
        };
        let t1 = match e2 {
            PtEntry::Table { table, .. } => table,
            _ => {
                return None;
            },
        };
        let e1 = {
            let tref = &self.tables[t1];
            tref.entries[i1]
        };
        match e1 {
            PtEntry::Leaf { frame, .. } => {
                proof {
                    assert(frame <= 0xffff_ffff_ffff_f000u64) by (bit_vector)
                        requires
                            frame % 4096 == 0,
                    ;
                    assert(va % PAGE_SIZE < PAGE_SIZE);
                }
                Some(frame + va % PAGE_SIZE)
            },
            _ => None,
        }
    }
}

#[derive(Clone, Copy, PartialEq, Eq, Structural, Debug)]
pub enum MapToError {
    /// The allocator ran out of frames while an intermediate table was
    /// missing.
    FrameAllocationFailed,
    /// The page is already mapped, to the frame carried here, which differs
    /// from the requested one.
    PageAlreadyMapped(u64),
}

/// Whole pages needed to cover `size` bytes.
pub open spec fn pages_to_cover(size: u64) -> int {
    size / PAGE_SIZE + if size % PAGE_SIZE == 0 {
        0int
    } else {
        1int
    }
}

/// Whether `q` lies in the run of `count` pages starting at `base`.
pub open spec fn page_in_run(base: u64, count: int, q: u64) -> bool {
    base <= q < base + count * (PAGE_SIZE as int)
}

/// Maps the device-memory region `[phys_addr, phys_addr + size)` (such as a
/// linear framebuffer) at `virt_addr`, page by page, with read/write,
/// no-execute, cache-disabled flags. A failure partway is reported and the
/// caller must treat the whole mapping as failed; pages outside the
/// requested run are never touched.
pub fn map_framebuffer(
    phys_addr: u64,
    size: u64,
    virt_addr: u64,
    mapper: &mut PageMapper,
    frame_allocator: &mut BootInfoFrameAllocator,
) -> (r: Result<(), MapToError>)
    requires
        old(mapper).wf(),
        old(frame_allocator).wf(),
        phys_addr % PAGE_SIZE == 0,
        virt_addr % PAGE_SIZE == 0,
        virt_addr + size <= LOW_HALF_END,
        phys_addr + size <= u64::MAX,
    ensures
        final(mapper).wf(),
        final(frame_allocator).wf(),
        final(mapper).phys_offset_spec() == old(mapper).phys_offset_spec(),
        final(frame_allocator).regions_spec() == old(frame_allocator).regions_spec(),
        final(frame_allocator).kernel_spec() == old(frame_allocator).kernel_spec(),
        forall|q: u64|
            page_mappable(q) && !page_in_run(virt_addr, pages_to_cover(size), q)
                ==> #[trigger] final(mapper).walk(q) == old(mapper).walk(q),
        r is Ok ==> forall|k: int|
            0 <= k < pages_to_cover(size) ==> #[trigger] final(mapper).walk(
                (virt_addr + k * PAGE_SIZE) as u64,
            ) == Some(
                (
                    (phys_addr + k * PAGE_SIZE) as u64,
                    PageFlags {
                        writable: true,
                        user_accessible: false,
                        no_execute: true,
                        cache_disabled: true,
                    },
                ),
            ),
        (r matches Err(e) && e == MapToError::FrameAllocationFailed) ==> (forall|g: u64|
            final(frame_allocator).valid_frame(g) ==> g < final(frame_allocator).cursor_spec()),
        r matches Err(MapToError::PageAlreadyMapped(f0)) ==> (exists|j: int|
            0 <= j < pages_to_cover(size) && (#[trigger] old(mapper).walk(
                (virt_addr + j * PAGE_SIZE) as u64,
            ) matches Some((fw, fl)) && fw == f0 && f0 != (phys_addr + j * PAGE_SIZE) as u64)),
{
    let pages = size / PAGE_SIZE + if size % PAGE_SIZE == 0 {
        0
    } else {
        1
    };
    proof {
        assert(pages == pages_to_cover(size));
        assert(pages * (PAGE_SIZE as int) < size + PAGE_SIZE) by (nonlinear_arith)
            requires
                pages == (size as int) / (PAGE_SIZE as int) + if (size as int) % (PAGE_SIZE as int) == 0 {
                    0int
                } else {
                    1int
                },
                (PAGE_SIZE as int) > 0,
                size >= 0,
        ;
    }
    let flags = PageFlags::device_memory();
    let mut k: u64 = 0;
    while k < pages
        invariant
            mapper.wf(),
            frame_allocator.wf(),
            mapper.phys_offset_spec() == old(mapper).phys_offset_spec(),
            frame_allocator.regions_spec() == old(frame_allocator).regions_spec(),
            frame_allocator.kernel_spec() == old(frame_allocator).kernel_spec(),
            0 <= k <= pages,
            pages == pages_to_cover(size),
            pages * (PAGE_SIZE as int) < size + PAGE_SIZE,
            phys_addr % PAGE_SIZE == 0,
            virt_addr % PAGE_SIZE == 0,
            virt_addr + size <= LOW_HALF_END,
            phys_addr + size <= u64::MAX,
            flags == (PageFlags {
                writable: true,
                user_accessible: false,
                no_execute: true,
                cache_disabled: true,
            }),
            forall|q: u64|
                page_mappable(q) && !page_in_run(virt_addr, pages as int, q)
                    ==> #[trigger] mapper.walk(q) == old(mapper).walk(q),
            forall|j: int|
                0 <= j < k ==> #[trigger] mapper.walk((virt_addr + j * PAGE_SIZE) as u64) == Some(
                    ((phys_addr + j * PAGE_SIZE) as u64, flags),
                ),
            forall|j: int|
                k <= j < pages ==> #[trigger] mapper.walk((virt_addr + j * PAGE_SIZE) as u64)
                    == old(mapper).walk((virt_addr + j * PAGE_SIZE) as u64),
        decreases pages - k,
    {
        proof {
            assert(k * (PAGE_SIZE as int) + PAGE_SIZE <= pages * (PAGE_SIZE as int))
                by (nonlinear_arith)
                requires
                    k + 1 <= pages,
                    (PAGE_SIZE as int) > 0,
                    k >= 0,
            ;
            assert((virt_addr + k * PAGE_SIZE) % (PAGE_SIZE as int) == 0) by (nonlinear_arith)
                requires
                    (virt_addr as int) % (PAGE_SIZE as int) == 0,
                    (PAGE_SIZE as int) > 0,
                    k >= 0,
                    virt_addr >= 0,
            ;
            assert((phys_addr + k * PAGE_SIZE) % (PAGE_SIZE as int) == 0) by (nonlinear_arith)
                requires
                    (phys_addr as int) % (PAGE_SIZE as int) == 0,
                    (PAGE_SIZE as int) > 0,
                    k >= 0,
                    phys_addr >= 0,
            ;
        }
        let page = virt_addr + k * PAGE_SIZE;
        let frame = phys_addr + k * PAGE_SIZE;
        let ghost m_before = *mapper;
        match mapper.map_to(page, frame, flags, frame_allocator) {
            Ok(()) => {},
            Err(MapToError::FrameAllocationFailed) => {
                return Err(MapToError::FrameAllocationFailed);
            },
            Err(MapToError::PageAlreadyMapped(f0)) => {
                proof {
                    assert(old(mapper).walk((virt_addr + (k as int) * PAGE_SIZE) as u64) matches
                        Some((fw, fl)) && fw == f0 && f0 != (phys_addr + (k as int)
                        * PAGE_SIZE) as u64);
                }
                return Err(MapToError::PageAlreadyMapped(f0));
            },
        }
        proof {
            assert(page_in_run(virt_addr, pages as int, page));
            assert forall|j: int|
                0 <= j < k + 1 implies #[trigger] mapper.walk((virt_addr + j * PAGE_SIZE) as u64)
                == Some(((phys_addr + j * PAGE_SIZE) as u64, flags)) by {
                if j < k {
                    let qj = (virt_addr + j * PAGE_SIZE) as u64;
                    assert(j * (PAGE_SIZE as int) < k * (PAGE_SIZE as int)) by (nonlinear_arith)
                        requires
                            0 <= j < k,
                            (PAGE_SIZE as int) > 0,
                    ;
                    assert(qj != page);
                    assert((qj as int) % (PAGE_SIZE as int) == 0) by (nonlinear_arith)
                        requires
                            (virt_addr as int) % (PAGE_SIZE as int) == 0,
                            (PAGE_SIZE as int) > 0,
                            j >= 0,
                            virt_addr >= 0,
                            qj == virt_addr + j * (PAGE_SIZE as int),
                    ;
                    assert(page_mappable(qj));
                    assert(mapper.walk(qj) == m_before.walk(qj));
                }
            };
            assert forall|j: int|
                k + 1 <= j < pages implies #[trigger] mapper.walk(
                (virt_addr + j * PAGE_SIZE) as u64,
            ) == old(mapper).walk((virt_addr + j * PAGE_SIZE) as u64) by {
                let qj = (virt_addr + j * PAGE_SIZE) as u64;
                assert(j * (PAGE_SIZE as int) > k * (PAGE_SIZE as int)) by (nonlinear_arith)
                    requires
                        0 <= k < j,
                        (PAGE_SIZE as int) > 0,
                ;
                assert(j * (PAGE_SIZE as int) < size) by (nonlinear_arith)
                    requires
                        j + 1 <= pages,
                        pages * (PAGE_SIZE as int) < size + PAGE_SIZE,
                        (PAGE_SIZE as int) > 0,
                        j >= 0,
                ;
                assert(qj != page);
                assert((qj as int) % (PAGE_SIZE as int) == 0) by (nonlinear_arith)
                    requires
                        (virt_addr as int) % (PAGE_SIZE as int) == 0,
                        (PAGE_SIZE as int) > 0,
                        j >= 0,
                        virt_addr >= 0,
                        qj == virt_addr + j * (PAGE_SIZE as int),
                ;
                assert(page_mappable(qj));
                assert(mapper.walk(qj) == m_before.walk(qj));
            };
        }
        k += 1;
    }
    Ok(())
}

/// Law: mapping then translating round-trips. Once a page's walk reports a
/// frame, every address inside that page walks to the same frame, so
/// `translate_addr` returns that frame plus the address's offset in the
/// page.
pub proof fn lemma_map_translate_round_trip(
    m: PageMapper,
    page: u64,
    frame: u64,
    flags: PageFlags,
    va: u64,
)
    requires
        m.wf(),
        page_mappable(page),
        m.walk(page) == Some((frame, flags)),
        page <= va < page + PAGE_SIZE,
    ensures
        m.walk(va) == Some((frame, flags)),
{
    assert((va >> 39) & 0x1ff == (page >> 39) & 0x1ff && (va >> 30) & 0x1ff == (page >> 30) & 0x1ff
        && (va >> 21) & 0x1ff == (page >> 21) & 0x1ff && (va >> 12) & 0x1ff == (page >> 12)
        & 0x1ff) by (bit_vector)
        requires
            page % 4096 == 0,
            page <= va < page + 4096,
    ;
    assert(idx4(va) == idx4(page) && idx3(va) == idx3(page) && idx2(va) == idx2(page) && idx1(va)
        == idx1(page));
}

/// Whether the kernel sees `va` mapped to the equal physical address.
pub fn is_identity_mapped(va: u64, mapper: &PageMapper) -> (r: bool)
    requires
        mapper.wf(),
    ensures
        r == (mapper.walk(va) matches Some((f, fl)) && f + va % PAGE_SIZE == va),
{
    match mapper.translate_addr(va) {
        Some(p) => p == va,
        None => false,
    }
}

proof fn lemma_idx_bounds(va: u64)
    ensures
        0 <= idx4(va) < TABLE_LEN,
        0 <= idx3(va) < TABLE_LEN,
        0 <= idx2(va) < TABLE_LEN,
        0 <= idx1(va) < TABLE_LEN,
{
    assert((va >> 39) & 0x1ff < 512 && (va >> 30) & 0x1ff < 512 && (va >> 21) & 0x1ff < 512 && (va
        >> 12) & 0x1ff < 512) by (bit_vector);
}

/// Linking a fresh, empty table into a slot that held no link changes no
/// walk: every chain through the slot still ends before a leaf.
///
/// `t` must sit at most two links below the root (witnessed by `j1`, `a`,
/// `j2` as the `depth` requires), which rules out the slot serving as the
/// final, leaf-holding step of any chain.
proof fn lemma_walk_after_link(
    m1: PageMapper,
    m2: PageMapper,
    t: int,
    i: int,
    n: int,
    depth: int,
    j1: int,
    a: int,
    j2: int,
)
    requires
        m1.wf(),
        0 <= t < m1.tables_len(),
        0 <= i < TABLE_LEN,
        !(m1.entry(t, i) matches PtEntry::Table { .. }),
        n == m1.tables_len(),
        m2.tables_len() == m1.tables_len() + 1,
        forall|x: int|
            0 <= x < m2.tables_len() ==> (#[trigger] m2.tables_spec()[x]).entries@.len()
                == TABLE_LEN,
        forall|x: int, y: int|
            0 <= x < m1.tables_len() && 0 <= y < TABLE_LEN && !(x == t && y == i)
                ==> m2.entry(x, y) == m1.entry(x, y),
        forall|y: int| 0 <= y < TABLE_LEN ==> (#[trigger] m2.entry(n, y)) is Empty,
        m2.entry(t, i) matches PtEntry::Table { table, .. } && table as int == n,
        depth == 0 || depth == 1 || depth == 2,
        depth == 0 ==> t == 0,
        depth == 1 ==> m1.edge(0, j1, t),
        depth == 2 ==> m1.edge(0, j1, a) && m1.edge(a, j2, t),
    ensures
        m2.wf(),
        forall|q: u64| #[trigger] m2.walk(q) == m1.walk(q),
        m2.entry(t, i)->table == n,
{
    assert forall|t1: int, i1: int, t2: int, i2: int, c: int|
        #[trigger] m2.edge(t1, i1, c) && #[trigger] m2.edge(t2, i2, c) implies t1 == t2 && i1
        == i2 by {
        if t1 == n || t2 == n {
            assert(false);
        } else if t1 == t && i1 == i {
            if !(t2 == t && i2 == i) {
                assert(m1.edge(t2, i2, n));
                assert(false);
            }
        } else if t2 == t && i2 == i {
            assert(m1.edge(t1, i1, n));
            assert(false);
        } else {
            assert(m1.edge(t1, i1, c) && m1.edge(t2, i2, c));
        }
    };
    assert(m2.wf());
    assert forall|q: u64| #[trigger] m2.walk(q) == m1.walk(q) by {
        lemma_idx_bounds(q);
        let i4q = idx4(q);
        let i3q = idx3(q);
        let i2q = idx2(q);
        let i1q = idx1(q);
        if t == 0 && i == i4q {
            // the changed slot is the first read: both walks end in nothing
            assert(m2.walk(q) is None);
            assert(m1.walk(q) is None);
        } else {
            assert(m2.entry(0, i4q) == m1.entry(0, i4q));
            match m1.entry(0, i4q) {
                PtEntry::Table { table: t3, .. } => {
                    let t3q = t3 as int;
                    assert(m1.edge(0, i4q, t3q));
                    assert(1 <= t3q < m1.tables_len());
                    if t == t3q && i == i3q {
                        assert(m2.walk(q) is None);
                        assert(m1.walk(q) is None);
                    } else {
                        assert(m2.entry(t3q, i3q) == m1.entry(t3q, i3q));
                        match m1.entry(t3q, i3q) {
                            PtEntry::Table { table: t2, .. } => {
                                let t2q = t2 as int;
                                assert(m1.edge(t3q, i3q, t2q));
                                if t == t2q && i == i2q {
                                    // t reached in two links from the root: by edge
                                    // uniqueness its witnessed position matches
                                    if depth == 0 {
                                        assert(false);
                                    } else if depth == 1 {
                                        assert(m1.edge(0, j1, t) && m1.edge(t3q, i3q, t));
                                        assert(false);
                                    } else {
                                        assert(m1.edge(a, j2, t) && m1.edge(t3q, i3q, t));
                                        assert(t3q == a);
                                        assert(m1.edge(0, j1, a) && m1.edge(0, i4q, t3q));
                                    }
                                    assert(m2.walk(q) is None);
                                    assert(m1.walk(q) is None);
                                } else {
                                    assert(m2.entry(t2q, i2q) == m1.entry(t2q, i2q));
                                    match m1.entry(t2q, i2q) {
                                        PtEntry::Table { table: t1, .. } => {
                                            let t1q = t1 as int;
                                            assert(m1.edge(t2q, i2q, t1q));
                                            if t == t1q && i == i1q {
                                                // a chain of three links reaches t,
                                                // contradicting its shallow position
                                                if depth == 0 {
                                                    assert(false);
                                                } else if depth == 1 {
                                                    assert(m1.edge(0, j1, t) && m1.edge(
                                                        t2q,
                                                        i2q,
                                                        t,
                                                    ));
                                                    assert(t2q == 0);
                                                    assert(false);
                                                } else {
                                                    assert(m1.edge(a, j2, t) && m1.edge(
                                                        t2q,
                                                        i2q,
                                                        t,
                                                    ));
                                                    assert(t2q == a && i2q == j2);
                                                    assert(m1.edge(0, j1, a) && m1.edge(
                                                        t3q,
                                                        i3q,
                                                        a,
                                                    ));
                                                    assert(t3q == 0);
                                                    assert(false);
                                                }
                                            } else {
                                                assert(m2.entry(t1q, i1q) == m1.entry(t1q, i1q));
                                            }
                                        },
                                        _ => {},
                                    }
                                }
                            },
                            _ => {},
                        }
                    }
                },
                _ => {},
            }
        }
    };
}

/// Writing a leaf at the end of an existing chain maps exactly the page that
/// chain belongs to; the walk of every other mappable page is untouched.
proof fn lemma_walk_after_leaf(
    m1: PageMapper,
    m2: PageMapper,
    page: u64,
    a3: int,
    a2: int,
    t: int,
    frame: u64,
    flags: PageFlags,
)
    requires
        m1.wf(),
        page_mappable(page),
        m1.edge(0, idx4(page), a3),
        m1.edge(a3, idx3(page), a2),
        m1.edge(a2, idx2(page), t),
        m2.tables_len() == m1.tables_len(),
        forall|x: int|
            0 <= x < m2.tables_len() ==> (#[trigger] m2.tables_spec()[x]).entries@.len()
                == TABLE_LEN,
        forall|x: int, y: int|
            0 <= x < m1.tables_len() && 0 <= y < TABLE_LEN && !(x == t && y == idx1(page))
                ==> m2.entry(x, y) == m1.entry(x, y),
        m2.entry(t, idx1(page)) == (PtEntry::Leaf { frame, flags }),
        frame % PAGE_SIZE == 0,
    ensures
        m2.wf(),
        m2.walk(page) == Some((frame, flags)),
        forall|q: u64|
            page_mappable(q) && q != page ==> #[trigger] m2.walk(q) == m1.walk(q),
{
    let i4p = idx4(page);
    let i3p = idx3(page);
    let i2p = idx2(page);
    let i1p = idx1(page);
    lemma_idx_bounds(page);
    assert(1 <= a3 < m1.tables_len());
    assert(1 <= a2 < m1.tables_len());
    assert(1 <= t < m1.tables_len());
    // well-formedness: the new leaf adds no link, so bounds and uniqueness of
    // links carry over
    assert forall|t1: int, i1: int, t2: int, i2: int, c: int|
        #[trigger] m2.edge(t1, i1, c) && #[trigger] m2.edge(t2, i2, c) implies t1 == t2 && i1
        == i2 by {
        assert(m1.edge(t1, i1, c) && m1.edge(t2, i2, c));
    };
    assert(m2.wf());
    // the written chain: the first three reads are unchanged cells
    assert(m2.entry(0, i4p) == m1.entry(0, i4p)) by {
        if t == 0 && i4p == i1p {
            assert(m1.edge(a2, i2p, t));
            assert(false);
        }
    };
    assert(m2.entry(a3, i3p) == m1.entry(a3, i3p)) by {
        if t == a3 && i3p == i1p {
            assert(m1.edge(a2, i2p, t) && m1.edge(0, i4p, a3));
            assert(a2 == 0);
            assert(false);
        }
    };
    assert(m2.entry(a2, i2p) == m1.entry(a2, i2p)) by {
        if t == a2 && i2p == i1p {
            assert(m1.edge(a2, i2p, t) && m1.edge(a3, i3p, a2));
            assert(a2 == a3 && i2p == i3p);
            assert(m1.edge(0, i4p, a3) && m1.edge(a3, i3p, a2));
            assert(a3 == 0);
            assert(false);
        }
    };
    assert(m2.walk(page) == Some((frame, flags)));
    assert forall|q: u64|
        page_mappable(q) && q != page implies #[trigger] m2.walk(q) == m1.walk(q) by {
        lemma_idx_bounds(q);
        let i4q = idx4(q);
        let i3q = idx3(q);
        let i2q = idx2(q);
        let i1q = idx1(q);
        assert(m2.entry(0, i4q) == m1.entry(0, i4q)) by {
            if t == 0 && i4q == i1p {
                assert(m1.edge(a2, i2p, t));
                assert(false);
            }
        };
        match m1.entry(0, i4q) {
            PtEntry::Table { table: t3, .. } => {
                let t3q = t3 as int;
                assert(m1.edge(0, i4q, t3q));
                assert(m2.entry(t3q, i3q) == m1.entry(t3q, i3q)) by {
                    if t == t3q && i3q == i1p {
                        assert(m1.edge(a2, i2p, t) && m1.edge(0, i4q, t));
                        assert(a2 == 0);
                        assert(false);
                    }
                };
                match m1.entry(t3q, i3q) {
                    PtEntry::Table { table: t2, .. } => {
                        let t2q = t2 as int;
                        assert(m1.edge(t3q, i3q, t2q));
                        assert(m2.entry(t2q, i2q) == m1.entry(t2q, i2q)) by {
                            if t == t2q && i2q == i1p {
                                assert(m1.edge(a2, i2p, t) && m1.edge(t3q, i3q, t));
                                assert(t3q == a2 && i3q == i2p);
                                assert(m1.edge(a3, i3p, a2) && m1.edge(0, i4q, a2));
                                assert(a3 == 0);
                                assert(false);
                            }
                        };
                        match m1.entry(t2q, i2q) {
                            PtEntry::Table { table: t1, .. } => {
                                let t1q = t1 as int;
                                assert(m1.edge(t2q, i2q, t1q));
                                assert(m2.entry(t1q, i1q) == m1.entry(t1q, i1q)) by {
                                    if t == t1q && i1q == i1p {
                                        assert(m1.edge(a2, i2p, t) && m1.edge(t2q, i2q, t));
                                        assert(t2q == a2 && i2q == i2p);
                                        assert(m1.edge(a3, i3p, a2) && m1.edge(t3q, i3q, a2));
                                        assert(t3q == a3 && i3q == i3p);
                                        assert(m1.edge(0, i4p, a3) && m1.edge(0, i4q, a3));
                                        assert(i4q == i4p);
                                        lemma_indices_identify_page(q, page);
                                        assert(false);
                                    }
                                };
                            },
                            _ => {},
                        }
                    },
                    _ => {},
                }
            },
            _ => {},
        }
    };
}

} // verus!
