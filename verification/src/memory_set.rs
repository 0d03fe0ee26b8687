//! Address spaces: map areas (ranges of virtual pages mapped in one way with one set of
//! permissions) and the nested kernel's own address space built from them.

use vstd::prelude::*;
use std::collections::BTreeMap;
use crate::address::{page_ceil, page_floor, InnerPhysAddr, InnerPhysPageNum, VirtAddr, VirtPageNum};
use crate::bits::lemma_vpn_indexes;
use crate::config::PAGE_SIZE;
use crate::flags::{MapPermission, MapType, PTEFlags, PTE_ALL, PTE_R, PTE_W, PTE_X, PERM_R, PERM_W, PERM_X};
use crate::frame_allocator::{StackFrameAllocator, alloc_times, frame_alloc, lemma_alloc_keeps_sound, lemma_alloc_times};
use crate::page_table::{PageTableRecord, lemma_idx_bounds, map_flags, map_leaf, missing_dirs, same_slot, walk_ok};
use crate::phys_mem::PhysMem;
use crate::pte::pte_bits;

verus! {

/// Number of virtual pages of the lower half of the Sv39 space; page numbers below it are
/// told apart by their table indexes.
pub const SV39_PAGES: usize = 0x800_0000;

/// The frame a page `vpn` of an area of type `t` is mapped to; `fresh` is the frame handed
/// out for it when the area is framed.
pub open spec fn target_ppn(t: MapType, vpn: usize, fresh: usize) -> usize {
    match t {
        MapType::Identical => vpn,
        MapType::Specified(p) => p.0,
        _ => fresh,
    }
}

/// Most directory frames mapping pages `v` up to `end`, in increasing order, can create: a
/// page may need a new directory for its 2 MiB region and one for its 1 GiB region, but only
/// when it enters that region, or is the first page mapped (`first`).
pub open spec fn area_dirs(v: int, end: int, first: bool) -> int
    decreases end - v,
{
    if v >= end {
        0
    } else {
        (if first || v % 512 == 0 {
            1int
        } else {
            0int
        }) + (if first || v % 0x40000 == 0 {
            1int
        } else {
            0int
        }) + area_dirs(v + 1, end, false)
    }
}

/// Most frames mapping pages `v` up to `end` of an area of type `t` can take from the
/// allocator: the directories of `area_dirs`, and a data frame per page of a framed area.
pub open spec fn area_frames(t: MapType, v: int, end: int, first: bool) -> int {
    area_dirs(v, end, first) + if t is Framed && v <= end {
        end - v
    } else {
        0
    }
}

/// No count of directories is negative.
pub proof fn lemma_area_dirs_nonneg(v: int, end: int, first: bool)
    ensures
        area_dirs(v, end, first) >= 0,
    decreases end - v,
{
    if v < end {
        lemma_area_dirs_nonneg(v + 1, end, false);
    }
}

/// Pages `[start, end)` mapped in one way, with one set of permissions; a framed area keeps
/// the frame it took for each page.
pub struct MapArea {
    start_vpn: VirtPageNum,
    end_vpn: VirtPageNum,
    data_frames: BTreeMap<usize, InnerPhysPageNum>,
    map_type: MapType,
    map_perm: MapPermission,
}

impl MapArea {
    /// First page of the area.
    pub closed spec fn start(&self) -> usize {
        self.start_vpn.0
    }

    /// Page just past the area.
    pub closed spec fn end(&self) -> usize {
        self.end_vpn.0
    }

    /// The frames a framed area took, by page.
    pub closed spec fn frames(&self) -> Map<usize, usize> {
        Map::new(|k: usize| self.data_frames@.contains_key(k), |k: usize| self.data_frames@[k].0)
    }

    /// How the area is mapped.
    pub closed spec fn kind(&self) -> MapType {
        self.map_type
    }

    /// The permission bits of the area.
    pub closed spec fn perm(&self) -> u16 {
        self.map_perm.view_bits()
    }

    /// First page of the area.
    pub fn start_vpn(&self) -> (r: VirtPageNum)
        ensures
            r.0 == self.start(),
    {
        self.start_vpn
    }

    /// Page just past the area.
    pub fn end_vpn(&self) -> (r: VirtPageNum)
        ensures
            r.0 == self.end(),
    {
        self.end_vpn
    }

    /// The frame the area took for page `vpn`, if any.
    pub fn frame(&self, vpn: VirtPageNum) -> (r: Option<InnerPhysPageNum>)
        ensures
            r.is_some() == self.frames().contains_key(vpn.0),
            r.is_some() ==> r.unwrap().0 == self.frames()[vpn.0],
    {
        match self.data_frames.get(&vpn.0) {
            Some(p) => Some(*p),
            None => None,
        }
    }

    /// The area of the pages that hold `[start_va, end_va)`, with no frame taken yet.
    pub fn new(start_va: VirtAddr, end_va: VirtAddr, map_type: MapType, map_perm: MapPermission) -> (r: MapArea)
        requires
            1 <= end_va.0 <= usize::MAX - (PAGE_SIZE - 1),
        ensures
            r.start() == page_floor(start_va.0 as int),
            r.end() == page_ceil(end_va.0 as int),
            r.frames() == Map::<usize, usize>::empty(),
            r.kind() == map_type,
            r.perm() == map_perm.view_bits(),
    {
        let start_vpn = start_va.floor();
        let end_vpn = end_va.ceil();
        let r = MapArea { start_vpn, end_vpn, data_frames: BTreeMap::new(), map_type, map_perm };
        assert(r.frames() =~= Map::<usize, usize>::empty());
        r
    }

    /// Maps page `vpn` into `page_table`: to itself for an identical area, to the given frame
    /// for a specified one, to a fresh zeroed frame (recorded in the area) for a framed one,
    /// with the area's permissions as entry flags. Raw areas are never mapped, and the
    /// allocator must hold the frames the mapping takes.
    pub fn map_one(
        &mut self,
        page_table: &mut PageTableRecord,
        mem: &mut PhysMem,
        allocator: &mut StackFrameAllocator,
        vpn: VirtPageNum,
    )
        requires
            old(page_table).wf(old(mem)@),
            old(page_table).backed_by(old(allocator)@, old(mem)@),
            !(old(self).kind() is Raw),
            old(self).perm() & !PTE_ALL == 0,
            missing_dirs(old(mem)@, old(page_table).root(), vpn.0) + (if old(self).kind() is Framed {
                1int
            } else {
                0int
            }) <= old(allocator)@.free_count(),
        ensures
            ({
                let a = old(allocator)@;
                let framed = old(self).kind() is Framed;
                let a1 = if framed {
                    a.alloc_step(0).0
                } else {
                    a
                };
                let fresh = a.alloc_step(0).1.unwrap();
                let md = missing_dirs(old(mem)@, old(page_table).root(), vpn.0);
                &&& final(allocator)@ == alloc_times(a1, md)
                &&& final(allocator)@.free_count() == a.free_count() - md - (if framed {
                    1int
                } else {
                    0int
                })
                &&& final(page_table).translation(final(mem)@, vpn.0) == Some(
                    map_leaf(
                        old(page_table).translation(old(mem)@, vpn.0),
                        target_ppn(old(self).kind(), vpn.0, fresh),
                        map_flags(old(self).perm()),
                    ),
                )
                &&& final(self).frames() == if framed {
                    old(self).frames().insert(vpn.0, fresh)
                } else {
                    old(self).frames()
                }
                &&& framed ==> a.free_set().contains(fresh)
            }),
            final(page_table).wf(final(mem)@),
            final(page_table).backed_by(final(allocator)@, final(mem)@),
            final(page_table).root() == old(page_table).root(),
            final(page_table).space_id() == old(page_table).space_id(),
            forall|w: usize| !same_slot(w, vpn.0) ==> #[trigger] final(page_table).translation(final(mem)@, w)
                == old(page_table).translation(old(mem)@, w),
            forall|q: usize| #[trigger] final(allocator)@.free_set().contains(q) ==> old(allocator)@.free_set().contains(q),
            final(self).start() == old(self).start(),
            final(self).end() == old(self).end(),
            final(self).kind() == old(self).kind(),
            final(self).perm() == old(self).perm(),
            final(mem)@.base == old(mem)@.base,
            final(mem)@.words.len() == old(mem)@.words.len(),
    {
        let ghost (m0, a0, f0) = (mem@, allocator@, self.frames());
        let ghost root = page_table.root();
        proof {
            lemma_alloc_keeps_sound(a0, 0);
            page_table.lemma_wf_mem(m0);
        }
        let ppn: InnerPhysPageNum;
        match self.map_type {
            MapType::Identical => {
                ppn = InnerPhysPageNum(vpn.0);
            },
            MapType::Specified(pa) => {
                ppn = InnerPhysPageNum(pa.0);
            },
            MapType::Framed => {
                let got = frame_alloc(allocator, mem);
                let p = got.unwrap();
                proof {
                    page_table.lemma_alloc_keeps_table(a0, m0, allocator@, mem@, p.0);
                }
                self.data_frames.insert(vpn.0, p);
                proof {
                    assert(self.frames() =~= f0.insert(vpn.0, p.0));
                }
                ppn = p;
            },
            MapType::Raw => {
                assert(false);
                ppn = InnerPhysPageNum(0);
            },
        }
        let ghost (m1, a1) = (mem@, allocator@);
        let flags = PTEFlags::from_bits(self.map_perm.get_bits()).unwrap();
        page_table.map(mem, allocator, vpn, ppn, flags);
        proof {
            lemma_alloc_times(a1, missing_dirs(m1, root, vpn.0));
            assert forall|q: usize| #[trigger] allocator@.free_set().contains(q) implies a0.free_set().contains(q) by {
                assert(a1.free_set().contains(q));
            }
        }
    }

    /// Maps every page of the area, in increasing order. The area lies in the lower half of
    /// the Sv39 space, is not raw, and the allocator holds the frames its pages may take.
    /// Afterwards each page of the area is mapped as `map_one` maps it, and every page number
    /// whose low 27 bits lie outside the area translates as before.
    pub fn map(&mut self, page_table: &mut PageTableRecord, mem: &mut PhysMem, allocator: &mut StackFrameAllocator)
        requires
            old(page_table).wf(old(mem)@),
            old(page_table).backed_by(old(allocator)@, old(mem)@),
            !(old(self).kind() is Raw),
            old(self).perm() & !PTE_ALL == 0,
            old(self).end() <= SV39_PAGES,
            area_frames(old(self).kind(), old(self).start() as int, old(self).end() as int, true)
                <= old(allocator)@.free_count(),
        ensures
            final(page_table).wf(final(mem)@),
            final(page_table).backed_by(final(allocator)@, final(mem)@),
            final(page_table).root() == old(page_table).root(),
            final(page_table).space_id() == old(page_table).space_id(),
            forall|v: usize|
                old(self).start() <= v < old(self).end() ==> #[trigger] final(page_table).translation(final(mem)@, v)
                    == Some(
                    map_leaf(
                        old(page_table).translation(old(mem)@, v),
                        target_ppn(old(self).kind(), v, final(self).frames()[v]),
                        map_flags(old(self).perm()),
                    ),
                ),
            forall|w: usize|
                !(old(self).start() <= w % SV39_PAGES < old(self).end()) ==> #[trigger] final(page_table).translation(
                    final(mem)@,
                    w,
                ) == old(page_table).translation(old(mem)@, w),
            old(self).kind() is Framed ==> forall|v: usize|
                old(self).start() <= v < old(self).end() ==> #[trigger] final(self).frames().contains_key(v)
                    && old(allocator)@.free_set().contains(final(self).frames()[v]),
            !(old(self).kind() is Framed) ==> final(self).frames() == old(self).frames(),
            forall|k: usize|
                !(old(self).start() <= k < old(self).end()) ==> (#[trigger] final(self).frames().contains_key(k)
                    == old(self).frames().contains_key(k)) && (old(self).frames().contains_key(k)
                    ==> final(self).frames()[k] == old(self).frames()[k]),
            final(allocator)@.free_count() >= old(allocator)@.free_count() - area_frames(
                old(self).kind(),
                old(self).start() as int,
                old(self).end() as int,
                true,
            ),
            forall|q: usize| #[trigger] final(allocator)@.free_set().contains(q) ==> old(allocator)@.free_set().contains(q),
            final(self).start() == old(self).start(),
            final(self).end() == old(self).end(),
            final(self).kind() == old(self).kind(),
            final(self).perm() == old(self).perm(),
            final(mem)@.base == old(mem)@.base,
            final(mem)@.words.len() == old(mem)@.words.len(),
    {
        let ghost (m0, a0, f0, pt0) = (mem@, allocator@, self.frames(), *page_table);
        let ghost (start, end, kind, perm) = (self.start(), self.end(), self.kind(), self.perm());
        let mut v: usize = self.start_vpn.0;
        while v < self.end_vpn.0
            invariant
                start <= v,
                v <= end || (v == start && end < start),
                end <= SV39_PAGES,
                self.start() == start,
                self.end() == end,
                self.kind() == kind,
                self.perm() == perm,
                !(kind is Raw),
                perm & !PTE_ALL == 0,
                page_table.wf(mem@),
                page_table.backed_by(allocator@, mem@),
                page_table.root() == pt0.root(),
                page_table.space_id() == pt0.space_id(),
                mem@.base == m0.base,
                mem@.words.len() == m0.words.len(),
                area_frames(kind, v as int, end as int, v == start) <= allocator@.free_count(),
                allocator@.free_count() >= a0.free_count() - (area_frames(kind, start as int, end as int, true)
                    - area_frames(kind, v as int, end as int, v == start)),
                v > start ==> walk_ok(mem@, page_table.root(), (v - 1) as usize, 2),
                forall|q: usize| #[trigger] allocator@.free_set().contains(q) ==> a0.free_set().contains(q),
                forall|u: usize|
                    start <= u < v ==> #[trigger] page_table.translation(mem@, u) == Some(
                        map_leaf(pt0.translation(m0, u), target_ppn(kind, u, self.frames()[u]), map_flags(perm)),
                    ),
                forall|w: usize|
                    !(start <= w % SV39_PAGES < v) ==> #[trigger] page_table.translation(mem@, w) == pt0.translation(
                        m0,
                        w,
                    ),
                kind is Framed ==> forall|u: usize|
                    start <= u < v ==> #[trigger] self.frames().contains_key(u) && a0.free_set().contains(
                        self.frames()[u],
                    ),
                !(kind is Framed) ==> self.frames() == f0,
                forall|k: usize|
                    !(start <= k < v) ==> (#[trigger] self.frames().contains_key(k) == f0.contains_key(k)) && (
                    f0.contains_key(k) ==> self.frames()[k] == f0[k]),
            decreases end - v,
        {
            let ghost (m1, a1, f1, pt1) = (mem@, allocator@, self.frames(), *page_table);
            proof {
                lemma_area_dirs_nonneg(v as int + 1, end as int, false);
                if v > start {
                    crate::bits::lemma_same_region(v);
                    lemma_idx_bounds(v);
                }
            }
            self.map_one(page_table, mem, allocator, VirtPageNum(v));
            proof {
                assert(walk_ok(mem@, page_table.root(), v, 2));
                assert(v % SV39_PAGES == v);
                assert forall|u: usize| start <= u < v implies !same_slot(u, v) by {
                    lemma_vpn_indexes(u, v);
                    assert(u % SV39_PAGES == u);
                }
                assert forall|u: usize| start <= u < v + 1 implies #[trigger] page_table.translation(mem@, u)
                    == Some(map_leaf(pt0.translation(m0, u), target_ppn(kind, u, self.frames()[u]), map_flags(perm))) by {
                    if u < v {
                        lemma_vpn_indexes(u, v);
                        assert(u % SV39_PAGES == u);
                        assert(!same_slot(u, v));
                        if kind is Framed {
                            assert(self.frames()[u] == f1[u]);
                        }
                    } else {
                        assert(pt1.translation(m1, v) == pt0.translation(m0, v));
                    }
                }
                assert forall|w: usize| !(start <= w % SV39_PAGES < v + 1) implies #[trigger] page_table.translation(
                    mem@,
                    w,
                ) == pt0.translation(m0, w) by {
                    lemma_vpn_indexes(w, v);
                    assert(!same_slot(w, v));
                }
            }
            v = v + 1;
        }
    }
}


/// What each of the `SV39_PAGES` page slots translates to.
pub open spec fn empty_view() -> spec_fn(usize) -> Option<u64> {
    |s: usize| None::<u64>
}

/// The slots after page `vpn` is mapped to frame `ppn` with flags `flags` (see `map_leaf`).
pub open spec fn after_page(t: spec_fn(usize) -> Option<u64>, vpn: usize, ppn: usize, flags: u16) -> spec_fn(usize) -> Option<u64> {
    |s: usize|
        if s == vpn % SV39_PAGES {
            Some(map_leaf(t(s), ppn, map_flags(flags)))
        } else {
            t(s)
        }
}

/// The slots after the identical area of pages `[start, end)` is mapped with permissions
/// `perm`.
pub open spec fn after_identical(t: spec_fn(usize) -> Option<u64>, start: int, end: int, perm: u16) -> spec_fn(usize) -> Option<u64> {
    |s: usize|
        if start <= s < end {
            Some(map_leaf(t(s), s, map_flags(perm)))
        } else {
            t(s)
        }
}

/// The table translates every page number as `t` translates its slot.
pub open spec fn represents(pt: PageTableRecord, m: crate::phys_mem::PhysMemView, t: spec_fn(usize) -> Option<u64>) -> bool {
    forall|w: usize| #[trigger] pt.translation(m, w) == t(w % SV39_PAGES)
}

/// Mapping one page carries a represented view over to `after_page`.
proof fn lemma_represents_page(
    pt: PageTableRecord,
    m: crate::phys_mem::PhysMemView,
    pt2: PageTableRecord,
    m2: crate::phys_mem::PhysMemView,
    t: spec_fn(usize) -> Option<u64>,
    vpn: usize,
    ppn: usize,
    flags: u16,
)
    requires
        represents(pt, m, t),
        pt2.translation(m2, vpn) == Some(map_leaf(pt.translation(m, vpn), ppn, map_flags(flags))),
        forall|w: usize| !same_slot(w, vpn) ==> #[trigger] pt2.translation(m2, w) == pt.translation(m, w),
    ensures
        represents(pt2, m2, after_page(t, vpn, ppn, flags)),
{
    assert forall|w: usize| #[trigger] pt2.translation(m2, w) == after_page(t, vpn, ppn, flags)(w % SV39_PAGES) by {
        lemma_vpn_indexes(w, vpn);
        assert((w % SV39_PAGES) % SV39_PAGES == w % SV39_PAGES);
        if same_slot(w, vpn) {
            pt2.lemma_translation_same_slot(m2, w, vpn);
            assert(pt.translation(m, vpn) == t(vpn % SV39_PAGES));
        } else {
            assert(pt.translation(m, w) == t(w % SV39_PAGES));
        }
    }
}

/// Mapping an identical area of the lower half carries a represented view over to
/// `after_identical`.
proof fn lemma_represents_area(
    pt: PageTableRecord,
    m: crate::phys_mem::PhysMemView,
    pt2: PageTableRecord,
    m2: crate::phys_mem::PhysMemView,
    t: spec_fn(usize) -> Option<u64>,
    start: usize,
    end: usize,
    perm: u16,
)
    requires
        represents(pt, m, t),
        end <= SV39_PAGES,
        forall|v: usize|
            start <= v < end ==> #[trigger] pt2.translation(m2, v) == Some(map_leaf(pt.translation(m, v), v, map_flags(perm))),
        forall|w: usize| !(start <= w % SV39_PAGES < end) ==> #[trigger] pt2.translation(m2, w) == pt.translation(m, w),
    ensures
        represents(pt2, m2, after_identical(t, start as int, end as int, perm)),
{
    assert forall|w: usize| #[trigger] pt2.translation(m2, w) == after_identical(t, start as int, end as int, perm)(w % SV39_PAGES) by {
        let s = (w % SV39_PAGES) as usize;
        if start <= s < end {
            lemma_vpn_indexes(w, s);
            assert(s % SV39_PAGES == s);
            pt2.lemma_translation_same_slot(m2, w, s);
            assert(pt.translation(m, s) == t(s % SV39_PAGES));
        } else {
            assert(pt.translation(m, w) == t(w % SV39_PAGES));
        }
    }
}

/// Read-write permissions.
pub open spec fn perm_rw() -> u16 {
    0x6
}

/// Read-execute-write permissions.
pub open spec fn perm_rxw() -> u16 {
    0xe
}

/// Where the nested kernel lies: the bounds of its sections (from the linker), the pages
/// that hold its trampolines and proxy context, the virtual addresses they are mapped at,
/// the end of its frame memory and of the outer kernel's space, and the device register
/// ranges as (start, length).
pub struct KernelLayout {
    pub stext: usize,
    pub etext: usize,
    pub srodata: usize,
    pub erodata: usize,
    pub sdata: usize,
    pub edata: usize,
    pub sbss_with_stack: usize,
    pub ebss: usize,
    pub sproxy: usize,
    pub eproxy: usize,
    pub ekernel: usize,
    pub strampoline: usize,
    pub snktrampoline: usize,
    pub trampoline: usize,
    pub nk_trampoline: usize,
    pub proxy_context: usize,
    pub nkspace_end: usize,
    pub okspace_end: usize,
    pub mmio: Vec<(usize, usize)>,
}

/// The identical areas of the kernel space, in mapping order, as (start address, end
/// address, permissions): text, read-only data, data, bss, proxy, frame memory, outer kernel
/// space, then each device register range.
pub open spec fn kernel_sections(l: KernelLayout) -> Seq<(int, int, u16)> {
    seq![
        (l.stext as int, l.etext as int, perm_rxw()),
        (l.srodata as int, l.erodata as int, perm_rw()),
        (l.sdata as int, l.edata as int, perm_rw()),
        (l.sbss_with_stack as int, l.ebss as int, perm_rw()),
        (l.sproxy as int, l.eproxy as int, perm_rw()),
        (l.ekernel as int, l.nkspace_end as int, perm_rw()),
        (l.nkspace_end as int, l.okspace_end as int, perm_rw()),
    ] + l.mmio@.map_values(|p: (usize, usize)| (p.0 as int, p.0 + p.1, perm_rw()))
}

/// Most directory frames mapping the area from address `s` to address `e` can create.
pub open spec fn section_dirs(s: int, e: int) -> int {
    area_dirs(page_floor(s), page_ceil(e), true)
}

/// Most directory frames mapping all the areas of `secs` can create.
pub open spec fn sections_dirs(secs: Seq<(int, int, u16)>) -> int
    decreases secs.len(),
{
    if secs.len() == 0 {
        0
    } else {
        sections_dirs(secs.drop_last()) + section_dirs(secs.last().0, secs.last().1)
    }
}

/// The slots after the areas of `secs` are mapped in order over `t`.
pub open spec fn sections_view(t: spec_fn(usize) -> Option<u64>, secs: Seq<(int, int, u16)>) -> spec_fn(usize) -> Option<u64>
    decreases secs.len(),
{
    if secs.len() == 0 {
        t
    } else {
        after_identical(
            sections_view(t, secs.drop_last()),
            page_floor(secs.last().0),
            page_ceil(secs.last().1),
            secs.last().2,
        )
    }
}

/// The slots after the trampoline, the nested-kernel trampoline and the proxy context are
/// mapped over an empty table.
pub open spec fn trampoline_view(l: KernelLayout) -> spec_fn(usize) -> Option<u64> {
    after_page(
        after_page(
            after_page(
                empty_view(),
                page_floor(l.trampoline as int) as usize,
                page_floor(l.strampoline as int) as usize,
                0xe,
            ),
            page_floor(l.nk_trampoline as int) as usize,
            page_floor(l.snktrampoline as int) as usize,
            0xa,
        ),
        page_floor(l.proxy_context as int) as usize,
        page_floor(l.sproxy as int) as usize,
        0x6,
    )
}

/// The slots of the nested kernel's address space.
pub open spec fn kernel_view(l: KernelLayout) -> spec_fn(usize) -> Option<u64> {
    sections_view(trampoline_view(l), kernel_sections(l))
}

/// Every area ends at a nonzero address in the lower half of the Sv39 space, with room for
/// a page above it in `usize`.
pub open spec fn sections_fit(secs: Seq<(int, int, u16)>) -> bool {
    forall|i: int|
        0 <= i < secs.len() ==> 1 <= #[trigger] secs[i].1 <= 0x80_0000_0000 && secs[i].1 <= usize::MAX - (
        PAGE_SIZE - 1)
}

/// The area `a` is the identical area of the pages that hold the addresses `sec.0` to
/// `sec.1`, with permissions `sec.2` and no frame taken.
pub open spec fn area_matches(a: MapArea, sec: (int, int, u16)) -> bool {
    &&& a.start() == page_floor(sec.0)
    &&& a.end() == page_ceil(sec.1)
    &&& a.kind() is Identical
    &&& a.perm() == sec.2
    &&& a.frames() == Map::<usize, usize>::empty()
}

/// An address space: its page table and the areas mapped in it.
pub struct MemorySet {
    page_table: PageTableRecord,
    areas: Vec<MapArea>,
}

impl MemorySet {
    /// The page table of the space.
    pub closed spec fn table(&self) -> PageTableRecord {
        self.page_table
    }

    /// The areas mapped in the space, in mapping order.
    pub closed spec fn areas(&self) -> Seq<MapArea> {
        self.areas@
    }

    /// A space with id `id`, an empty table and no area.
    fn new_bare(id: usize, allocator: &mut StackFrameAllocator, mem: &mut PhysMem) -> (r: MemorySet)
        requires
            old(allocator)@.wf(),
            old(allocator)@.sound(),
            old(mem)@.wf(),
            crate::frame_allocator::backs(old(allocator)@, old(mem)@),
            old(allocator)@.free_count() > 0,
        ensures
            r.table().space_id() == id,
            r.table().wf(final(mem)@),
            r.table().backed_by(final(allocator)@, final(mem)@),
            represents(r.table(), final(mem)@, empty_view()),
            r.areas() == Seq::<MapArea>::empty(),
            final(allocator)@.free_count() == old(allocator)@.free_count() - 1,
            forall|q: usize| #[trigger] final(allocator)@.free_set().contains(q) ==> old(allocator)@.free_set().contains(q),
            final(mem)@.base == old(mem)@.base,
            final(mem)@.words.len() == old(mem)@.words.len(),
    {
        proof {
            lemma_alloc_times(allocator@, 1);
            reveal_with_fuel(alloc_times, 2);
            assert(alloc_times(allocator@, 1) == allocator@.alloc_step(0).0);
        }
        let pt = PageTableRecord::new(id, allocator, mem);
        let r = MemorySet { page_table: pt, areas: Vec::new() };
        proof {
            assert forall|w: usize| #[trigger] r.page_table.translation(mem@, w) == empty_view()(w % SV39_PAGES) by {}
        }
        r
    }

    /// The page table of the space.
    pub fn page_table(&self) -> (r: &PageTableRecord)
        ensures
            *r == self.table(),
    {
        &self.page_table
    }

    /// Number of areas mapped in the space.
    pub fn area_count(&self) -> (r: usize)
        ensures
            r == self.areas().len(),
    {
        self.areas.len()
    }

    /// The satp value that activates the space.
    pub fn token(&self) -> (r: u64)
        ensures
            r == (8u64 << 60u64) | ((self.table().space_id() as u64) << 44u64) | (self.table().root() as u64),
    {
        self.page_table.token()
    }

    /// Maps `map_area` into the space and records it.
    fn push(&mut self, map_area: MapArea, mem: &mut PhysMem, allocator: &mut StackFrameAllocator)
        requires
            old(self).table().wf(old(mem)@),
            old(self).table().backed_by(old(allocator)@, old(mem)@),
            map_area.kind() is Identical,
            map_area.perm() & !PTE_ALL == 0,
            map_area.end() <= SV39_PAGES,
            area_dirs(map_area.start() as int, map_area.end() as int, true) <= old(allocator)@.free_count(),
        ensures
            final(self).table().wf(final(mem)@),
            final(self).table().backed_by(final(allocator)@, final(mem)@),
            final(self).table().space_id() == old(self).table().space_id(),
            final(self).table().root() == old(self).table().root(),
            forall|t: spec_fn(usize) -> Option<u64>|
                represents(old(self).table(), old(mem)@, t) ==> #[trigger] represents(
                    final(self).table(),
                    final(mem)@,
                    after_identical(t, map_area.start() as int, map_area.end() as int, map_area.perm()),
                ),
            final(allocator)@.free_count() >= old(allocator)@.free_count() - area_dirs(
                map_area.start() as int,
                map_area.end() as int,
                true,
            ),
            forall|q: usize| #[trigger] final(allocator)@.free_set().contains(q) ==> old(allocator)@.free_set().contains(q),
            final(self).areas().len() == old(self).areas().len() + 1,
            final(self).areas().drop_last() == old(self).areas(),
            final(self).areas().last().start() == map_area.start(),
            final(self).areas().last().end() == map_area.end(),
            final(self).areas().last().kind() == map_area.kind(),
            final(self).areas().last().perm() == map_area.perm(),
            final(self).areas().last().frames() == map_area.frames(),
            final(mem)@.base == old(mem)@.base,
            final(mem)@.words.len() == old(mem)@.words.len(),
    {
        let ghost (pt0, m0) = (self.page_table, mem@);
        let mut map_area = map_area;
        map_area.map(&mut self.page_table, mem, allocator);
        proof {
            assert forall|t: spec_fn(usize) -> Option<u64>| represents(pt0, m0, t) implies #[trigger] represents(
                self.page_table,
                mem@,
                after_identical(t, map_area.start() as int, map_area.end() as int, map_area.perm()),
            ) by {
                lemma_represents_area(pt0, m0, self.page_table, mem@, t, map_area.start(), map_area.end(), map_area.perm());
            }
        }
        self.areas.push(map_area);
        proof {
            assert(self.areas@.drop_last() =~= old(self).areas@);
        }
    }
}

impl MemorySet {
    /// Maps the trampoline (read, execute, write), the nested-kernel trampoline (read,
    /// execute) and the proxy context (read, write) at their virtual addresses. They are not
    /// recorded as areas.
    fn map_trampoline(&mut self, l: &KernelLayout, mem: &mut PhysMem, allocator: &mut StackFrameAllocator)
        requires
            old(self).table().wf(old(mem)@),
            old(self).table().backed_by(old(allocator)@, old(mem)@),
            6 <= old(allocator)@.free_count(),
        ensures
            final(self).table().wf(final(mem)@),
            final(self).table().backed_by(final(allocator)@, final(mem)@),
            final(self).table().space_id() == old(self).table().space_id(),
            final(self).table().root() == old(self).table().root(),
            final(self).areas() == old(self).areas(),
            represents(old(self).table(), old(mem)@, empty_view()) ==> represents(
                final(self).table(),
                final(mem)@,
                trampoline_view(*l),
            ),
            final(allocator)@.free_count() >= old(allocator)@.free_count() - 6,
            forall|q: usize| #[trigger] final(allocator)@.free_set().contains(q) ==> old(allocator)@.free_set().contains(q),
            final(mem)@.base == old(mem)@.base,
            final(mem)@.words.len() == old(mem)@.words.len(),
    {
        proof {
            crate::bits::lemma_flag_constants();
        }
        let ghost t0 = empty_view();
        let targets = [
            (l.trampoline, l.strampoline, PTE_R | PTE_X | PTE_W),
            (l.nk_trampoline, l.snktrampoline, PTE_R | PTE_X),
            (l.proxy_context, l.sproxy, PTE_R | PTE_W),
        ];
        let ghost views = seq![
            t0,
            after_page(t0, page_floor(l.trampoline as int) as usize, page_floor(l.strampoline as int) as usize, 0xe),
            after_page(
                after_page(t0, page_floor(l.trampoline as int) as usize, page_floor(l.strampoline as int) as usize, 0xe),
                page_floor(l.nk_trampoline as int) as usize,
                page_floor(l.snktrampoline as int) as usize,
                0xa,
            ),
            trampoline_view(*l),
        ];
        let ghost (pt0, m0, a0) = (self.page_table, mem@, allocator@);
        let mut k: usize = 0;
        while k < 3
            invariant
                k <= 3,
                targets@ == seq![
                    (l.trampoline, l.strampoline, PTE_R | PTE_X | PTE_W),
                    (l.nk_trampoline, l.snktrampoline, PTE_R | PTE_X),
                    (l.proxy_context, l.sproxy, PTE_R | PTE_W),
                ],
                (PTE_R | PTE_X | PTE_W) & PTE_ALL == 0xe,
                (PTE_R | PTE_X) & PTE_ALL == 0xa,
                (PTE_R | PTE_W) & PTE_ALL == 0x6,
                views.len() == 4,
                forall|i: int| 0 <= i < 3 ==> #[trigger] views[i + 1] == after_page(
                    views[i],
                    page_floor(targets@[i].0 as int) as usize,
                    page_floor(targets@[i].1 as int) as usize,
                    targets@[i].2 & PTE_ALL,
                ),
                views[0] == t0,
                views[3] == trampoline_view(*l),
                self.page_table.wf(mem@),
                self.page_table.backed_by(allocator@, mem@),
                self.page_table.space_id() == pt0.space_id(),
                self.page_table.root() == pt0.root(),
                self.areas@ == old(self).areas@,
                represents(pt0, m0, t0) ==> represents(self.page_table, mem@, views[k as int]),
                allocator@.free_count() >= a0.free_count() - 2 * k,
                6 <= a0.free_count(),
                forall|q: usize| #[trigger] allocator@.free_set().contains(q) ==> a0.free_set().contains(q),
                mem@.base == m0.base,
                mem@.words.len() == m0.words.len(),
            decreases 3 - k,
        {
            let (va, pa, bits) = targets[k];
            let vpn = VirtAddr(va).floor();
            let ppn = InnerPhysAddr(pa).floor();
            let flags = PTEFlags::from_bits_truncate(bits);
            let ghost (pt1, m1, a1) = (self.page_table, mem@, allocator@);
            self.page_table.map(mem, allocator, vpn, ppn, flags);
            proof {
                lemma_alloc_times(a1, missing_dirs(m1, pt1.root(), vpn.0));
                assert forall|q: usize| #[trigger] allocator@.free_set().contains(q) implies a0.free_set().contains(q) by {
                    assert(a1.free_set().contains(q));
                }
                if represents(pt0, m0, t0) {
                    lemma_represents_page(pt1, m1, self.page_table, mem@, views[k as int], vpn.0, ppn.0, bits & PTE_ALL);
                }
            }
            k = k + 1;
        }
    }

    /// Maps and records the identical area of the pages that hold `[start, end)`.
    fn push_section(&mut self, start: usize, end: usize, perm: MapPermission, mem: &mut PhysMem, allocator: &mut StackFrameAllocator)
        requires
            old(self).table().wf(old(mem)@),
            old(self).table().backed_by(old(allocator)@, old(mem)@),
            1 <= end <= 0x80_0000_0000,
            end <= usize::MAX - (PAGE_SIZE - 1),
            perm.view_bits() & !PTE_ALL == 0,
            section_dirs(start as int, end as int) <= old(allocator)@.free_count(),
        ensures
            final(self).table().wf(final(mem)@),
            final(self).table().backed_by(final(allocator)@, final(mem)@),
            final(self).table().space_id() == old(self).table().space_id(),
            final(self).table().root() == old(self).table().root(),
            forall|t: spec_fn(usize) -> Option<u64>|
                represents(old(self).table(), old(mem)@, t) ==> #[trigger] represents(
                    final(self).table(),
                    final(mem)@,
                    after_identical(t, page_floor(start as int), page_ceil(end as int), perm.view_bits()),
                ),
            final(allocator)@.free_count() >= old(allocator)@.free_count() - section_dirs(start as int, end as int),
            forall|q: usize| #[trigger] final(allocator)@.free_set().contains(q) ==> old(allocator)@.free_set().contains(q),
            final(self).areas().len() == old(self).areas().len() + 1,
            final(self).areas().drop_last() == old(self).areas(),
            area_matches(final(self).areas().last(), (start as int, end as int, perm.view_bits())),
            final(mem)@.base == old(mem)@.base,
            final(mem)@.words.len() == old(mem)@.words.len(),
    {
        let area = MapArea::new(VirtAddr(start), VirtAddr(end), MapType::Identical, perm);
        self.push(area, mem, allocator);
    }

    /// The nested kernel's own address space (id `0xffff`): the trampolines and the proxy
    /// context, then every area of `kernel_sections` mapped identically, in order. Every area
    /// must end in the lower half of the Sv39 space, and the allocator must hold the frames the
    /// mapping may take.
    pub fn new_kernel(l: &KernelLayout, allocator: &mut StackFrameAllocator, mem: &mut PhysMem) -> (r: MemorySet)
        requires
            old(allocator)@.wf(),
            old(allocator)@.sound(),
            old(mem)@.wf(),
            crate::frame_allocator::backs(old(allocator)@, old(mem)@),
            sections_fit(kernel_sections(*l)),
            7 + sections_dirs(kernel_sections(*l)) <= old(allocator)@.free_count(),
        ensures
            r.table().space_id() == 0xffff,
            r.table().wf(final(mem)@),
            r.table().backed_by(final(allocator)@, final(mem)@),
            represents(r.table(), final(mem)@, kernel_view(*l)),
            r.areas().len() == kernel_sections(*l).len(),
            forall|i: int| 0 <= i < r.areas().len() ==> #[trigger] area_matches(r.areas()[i], kernel_sections(*l)[i]),
            forall|q: usize| #[trigger] final(allocator)@.free_set().contains(q) ==> old(allocator)@.free_set().contains(q),
            final(mem)@.base == old(mem)@.base,
            final(mem)@.words.len() == old(mem)@.words.len(),
    {
        let ghost secs = kernel_sections(*l);
        let ghost a0 = allocator@;
        proof {
            crate::bits::lemma_flag_constants();
            lemma_sections_dirs_nonneg(secs);
        }
        let mut ms = MemorySet::new_bare(0xffff, allocator, mem);
        ms.map_trampoline(l, mem, allocator);
        let rxw = MapPermission::from_bits_truncate(PERM_R | PERM_X | PERM_W);
        let rw = MapPermission::from_bits_truncate(PERM_R | PERM_W);
        let mut sections: Vec<(usize, usize, MapPermission)> = vec![
            (l.stext, l.etext, rxw),
            (l.srodata, l.erodata, rw),
            (l.sdata, l.edata, rw),
            (l.sbss_with_stack, l.ebss, rw),
            (l.sproxy, l.eproxy, rw),
            (l.ekernel, l.nkspace_end, rw),
            (l.nkspace_end, l.okspace_end, rw),
        ];
        let mut j: usize = 0;
        while j < l.mmio.len()
            invariant
                j <= l.mmio@.len(),
                sections@.len() == 7 + j,
                forall|i: int| 0 <= i < 7 + j ==> (#[trigger] sections@[i].0 as int, sections@[i].1 as int,
                    sections@[i].2.view_bits()) == secs[i],
                secs == kernel_sections(*l),
                rw.view_bits() == perm_rw(),
                rxw.view_bits() == perm_rxw(),
                sections_fit(secs),
            decreases l.mmio@.len() - j,
        {
            let (base, len) = l.mmio[j];
            proof {
                assert(secs[7 + j as int] == (base as int, base + len, perm_rw()));
                assert(secs[7 + j as int].1 <= usize::MAX - (PAGE_SIZE - 1));
            }
            sections.push((base, base + len, rw));
            j = j + 1;
        }
        let ghost tv = trampoline_view(*l);
        let mut k: usize = 0;
        while k < sections.len()
            invariant
                k <= sections@.len(),
                sections@.len() == secs.len(),
                forall|i: int| 0 <= i < secs.len() ==> (#[trigger] sections@[i].0 as int, sections@[i].1 as int,
                    sections@[i].2.view_bits()) == secs[i],
                sections_fit(secs),
                forall|i: int| 0 <= i < secs.len() ==> #[trigger] secs[i].2 & !PTE_ALL == 0,
                ms.table().wf(mem@),
                ms.table().backed_by(allocator@, mem@),
                ms.table().space_id() == 0xffff,
                ms.areas().len() == k,
                forall|i: int| 0 <= i < k ==> #[trigger] area_matches(ms.areas()[i], secs[i]),
                represents(ms.table(), mem@, sections_view(tv, secs.take(k as int))),
                allocator@.free_count() >= sections_dirs(secs) - sections_dirs(secs.take(k as int)),
                forall|q: usize| #[trigger] allocator@.free_set().contains(q) ==> a0.free_set().contains(q),
                mem@.base == old(mem)@.base,
                mem@.words.len() == old(mem)@.words.len(),
            decreases secs.len() - k,
        {
            let (start, end, perm) = sections[k];
            proof {
                lemma_sections_take(secs, k as int);
                assert((sections@[k as int].0 as int, sections@[k as int].1 as int, sections@[k as int].2.view_bits())
                    == secs[k as int]);
                assert(secs[k as int].2 & !PTE_ALL == 0);
                assert(1 <= secs[k as int].1 <= 0x80_0000_0000);
                lemma_sections_dirs_nonneg(secs);
                assert(sections_dirs(secs.take(k + 1)) <= sections_dirs(secs));
            }
            let ghost before = ms.areas();
            ms.push_section(start, end, perm, mem, allocator);
            proof {
                assert forall|i: int| 0 <= i < k + 1 implies #[trigger] area_matches(ms.areas()[i], secs[i]) by {
                    if i < k {
                        assert(ms.areas()[i] == ms.areas().drop_last()[i]);
                    }
                }
            }
            k = k + 1;
        }
        proof {
            assert(secs.take(secs.len() as int) =~= secs);
        }
        ms
    }
}

/// Every area counts a nonnegative number of directories, so a prefix of the areas counts no more
/// than all of them.
proof fn lemma_sections_dirs_nonneg(secs: Seq<(int, int, u16)>)
    ensures
        sections_dirs(secs) >= 0,
        forall|k: int| 0 <= k <= secs.len() ==> #[trigger] sections_dirs(secs.take(k)) <= sections_dirs(secs),
    decreases secs.len(),
{
    if secs.len() > 0 {
        lemma_sections_dirs_nonneg(secs.drop_last());
        lemma_area_dirs_nonneg(page_floor(secs.last().0), page_ceil(secs.last().1), true);
        assert forall|k: int| 0 <= k <= secs.len() implies #[trigger] sections_dirs(secs.take(k)) <= sections_dirs(secs) by {
            if k < secs.len() {
                assert(secs.take(k) =~= secs.drop_last().take(k));
            } else {
                assert(secs.take(k) =~= secs);
            }
        }
    }
}

/// One more area: the view and the page count of the first `k + 1` areas from those of the
/// first `k`.
proof fn lemma_sections_take(secs: Seq<(int, int, u16)>, k: int)
    requires
        0 <= k < secs.len(),
    ensures
        sections_dirs(secs.take(k + 1)) == sections_dirs(secs.take(k)) + section_dirs(secs[k].0, secs[k].1),
        forall|t: spec_fn(usize) -> Option<u64>| #[trigger] sections_view(t, secs.take(k + 1)) == after_identical(
            sections_view(t, secs.take(k)),
            page_floor(secs[k].0),
            page_ceil(secs[k].1),
            secs[k].2,
        ),
{
    assert(secs.take(k + 1).drop_last() =~= secs.take(k));
    assert(secs.take(k + 1).last() == secs[k]);
}

/// Whether page `v` is one of the pages that hold the addresses from `s` to `e`.
pub open spec fn in_pages(v: usize, s: int, e: int) -> bool {
    page_floor(s) <= v < page_ceil(e)
}

/// Permissions up to 0x3e stay within the low flag byte once mapped.
proof fn lemma_flag_byte(p: u16)
    requires
        p <= 0x3e,
    ensures
        map_flags(p) <= 0xff,
{
    assert(p | 0xc1u16 <= 0xff) by (bit_vector)
        requires
            p <= 0x3e,
    ;
}

/// Clearing the low flag byte of an identical leaf and setting another keeps the page number.
proof fn lemma_leaf_reflag(v: usize, f: u16, g: u16)
    by (bit_vector)
    requires
        f <= 0xff,
        g <= 0xff,
    ensures
        ((((v as u64) << 10) | (f as u64)) & 0xffff_ffff_ffff_ff00) | (g as u64) == ((v as u64) << 10) | (g as u64),
{
}

/// How mapping the identical areas of `secs` in order sets slot `v`: untouched when no area
/// holds `v`; starting from an empty slot, the identical leaf of `v` with the flags of the
/// last area that holds it.
proof fn lemma_sections_view_slot(t: spec_fn(usize) -> Option<u64>, secs: Seq<(int, int, u16)>, v: usize)
    requires
        forall|i: int| 0 <= i < secs.len() ==> #[trigger] secs[i].2 <= 0x3e,
    ensures
        (forall|i: int| 0 <= i < secs.len() ==> !in_pages(v, #[trigger] secs[i].0, secs[i].1)) ==> sections_view(
            t,
            secs,
        )(v) == t(v),
        t(v) is None ==> (sections_view(t, secs)(v) is None || exists|p: u16|
            p <= 0x3e && sections_view(t, secs)(v) == Some(#[trigger] pte_bits(v, map_flags(p)))),
        forall|k: int|
            0 <= k < secs.len() && t(v) is None && in_pages(v, #[trigger] secs[k].0, secs[k].1) && (forall|j: int|
                k < j < secs.len() ==> !in_pages(v, #[trigger] secs[j].0, secs[j].1)) ==> sections_view(t, secs)(v)
                == Some(pte_bits(v, map_flags(secs[k].2))),
    decreases secs.len(),
{
    if secs.len() > 0 {
        let init = secs.drop_last();
        let last = secs.last();
        let n = secs.len() - 1;
        assert(last == secs[n]);
        assert forall|i: int| 0 <= i < init.len() implies #[trigger] init[i].2 <= 0x3e by {
            assert(init[i] == secs[i]);
        }
        lemma_sections_view_slot(t, init, v);
        let prev = sections_view(t, init)(v);
        if in_pages(v, last.0, last.1) {
            assert(sections_view(t, secs)(v) == Some(map_leaf(prev, v, map_flags(last.2))));
            if t(v) is None {
                let g = map_flags(last.2);
                lemma_flag_byte(last.2);
                if prev is Some {
                    let p = choose|p: u16| p <= 0x3e && prev == Some(#[trigger] pte_bits(v, map_flags(p)));
                    let f = map_flags(p);
                    lemma_flag_byte(p);
                    lemma_leaf_reflag(v, f, g);
                }
                assert(sections_view(t, secs)(v) == Some(pte_bits(v, map_flags(secs[n].2))));
                assert(exists|p: u16| p <= 0x3e && sections_view(t, secs)(v) == Some(#[trigger] pte_bits(v, map_flags(p)))) by {
                    assert(sections_view(t, secs)(v) == Some(pte_bits(v, map_flags(last.2))));
                }
            }
            assert forall|k: int|
                0 <= k < secs.len() && t(v) is None && in_pages(v, #[trigger] secs[k].0, secs[k].1) && (forall|j: int|
                    k < j < secs.len() ==> !in_pages(v, #[trigger] secs[j].0, secs[j].1)) implies sections_view(t, secs)(v)
                    == Some(pte_bits(v, map_flags(secs[k].2))) by {
                if k < n {
                    assert(in_pages(v, secs[n].0, secs[n].1));
                }
            }
        } else {
            assert(sections_view(t, secs)(v) == prev);
            assert((forall|i: int| 0 <= i < secs.len() ==> !in_pages(v, #[trigger] secs[i].0, secs[i].1)) ==> (forall|
                i: int|
                0 <= i < init.len() ==> !in_pages(v, #[trigger] init[i].0, init[i].1))) by {
                assert forall|i: int| 0 <= i < init.len() implies init[i] == secs[i] by {}
            }
            assert forall|k: int|
                0 <= k < secs.len() && t(v) is None && in_pages(v, #[trigger] secs[k].0, secs[k].1) && (forall|j: int|
                    k < j < secs.len() ==> !in_pages(v, #[trigger] secs[j].0, secs[j].1)) implies sections_view(t, secs)(v)
                    == Some(pte_bits(v, map_flags(secs[k].2))) by {
                assert(k < n);
                assert(init[k] == secs[k]);
                assert forall|j: int| k < j < init.len() implies !in_pages(v, #[trigger] init[j].0, init[j].1) by {
                    assert(init[j] == secs[j]);
                }
            }
        }
    }
}

/// The last area of `secs`, from index `i` on, that holds page `v`.
proof fn lemma_last_holder(secs: Seq<(int, int, u16)>, v: usize, i: int) -> (k: int)
    requires
        0 <= i < secs.len(),
        in_pages(v, secs[i].0, secs[i].1),
    ensures
        i <= k < secs.len(),
        in_pages(v, secs[k].0, secs[k].1),
        forall|j: int| k < j < secs.len() ==> !in_pages(v, #[trigger] secs[j].0, secs[j].1),
    decreases secs.len() - i,
{
    if exists|j: int| i < j < secs.len() && in_pages(v, #[trigger] secs[j].0, secs[j].1) {
        let j = choose|j: int| i < j < secs.len() && in_pages(v, #[trigger] secs[j].0, secs[j].1);
        lemma_last_holder(secs, v, j)
    } else {
        i
    }
}

/// Whether page slot `v` is that of one of the trampolines or of the proxy context.
pub open spec fn trampoline_slot(l: KernelLayout, v: usize) -> bool {
    ||| v == (page_floor(l.trampoline as int) as usize) % SV39_PAGES
    ||| v == (page_floor(l.nk_trampoline as int) as usize) % SV39_PAGES
    ||| v == (page_floor(l.proxy_context as int) as usize) % SV39_PAGES
}

/// Whether page `v` holds an address of the read-only data, data, .bss, proxy, frame-memory
/// or outer-kernel section, or of a device register range.
pub open spec fn in_data_sections(l: KernelLayout, v: usize) -> bool {
    ||| in_pages(v, l.srodata as int, l.erodata as int)
    ||| in_pages(v, l.sdata as int, l.edata as int)
    ||| in_pages(v, l.sbss_with_stack as int, l.ebss as int)
    ||| in_pages(v, l.sproxy as int, l.eproxy as int)
    ||| in_pages(v, l.ekernel as int, l.nkspace_end as int)
    ||| in_pages(v, l.nkspace_end as int, l.okspace_end as int)
    ||| exists|j: int| 0 <= j < l.mmio@.len() && in_pages(v, #[trigger] l.mmio@[j].0 as int, l.mmio@[j].0 + l.mmio@[j].1)
}

/// Facts on the areas of the kernel space: every permission is small, the first seven are
/// the kernel's sections and the rest its device ranges.
proof fn lemma_kernel_sections_shape(l: KernelLayout)
    ensures
        kernel_sections(l).len() == 7 + l.mmio@.len(),
        forall|i: int| 0 <= i < kernel_sections(l).len() ==> #[trigger] kernel_sections(l)[i].2 <= 0x3e,
        forall|i: int| 1 <= i < kernel_sections(l).len() ==> #[trigger] kernel_sections(l)[i].2 == 6,
        kernel_sections(l)[0] == (l.stext as int, l.etext as int, 0xeu16),
        kernel_sections(l)[1] == (l.srodata as int, l.erodata as int, 6u16),
        kernel_sections(l)[2] == (l.sdata as int, l.edata as int, 6u16),
        kernel_sections(l)[3] == (l.sbss_with_stack as int, l.ebss as int, 6u16),
        kernel_sections(l)[4] == (l.sproxy as int, l.eproxy as int, 6u16),
        kernel_sections(l)[5] == (l.ekernel as int, l.nkspace_end as int, 6u16),
        kernel_sections(l)[6] == (l.nkspace_end as int, l.okspace_end as int, 6u16),
        forall|j: int| 0 <= j < l.mmio@.len() ==> #[trigger] kernel_sections(l)[7 + j] == (l.mmio@[j].0 as int,
            l.mmio@[j].0 + l.mmio@[j].1, 6u16),
{
    let secs = kernel_sections(l);
    assert forall|j: int| 0 <= j < l.mmio@.len() implies #[trigger] secs[7 + j] == (l.mmio@[j].0 as int,
        l.mmio@[j].0 + l.mmio@[j].1, 6u16) by {
        assert(secs[7 + j] == l.mmio@.map_values(|p: (usize, usize)| (p.0 as int, p.0 + p.1, perm_rw()))[j]);
    }
    assert forall|i: int| 0 <= i < secs.len() implies #[trigger] secs[i].2 <= 0x3e by {
        if i >= 7 {
            assert(secs[7 + (i - 7)] == secs[i]);
        }
    }
    assert forall|i: int| 1 <= i < secs.len() implies #[trigger] secs[i].2 == 6 by {
        if i >= 7 {
            assert(secs[7 + (i - 7)] == secs[i]);
        }
    }
}

/// In the nested kernel's own address space, every page of the read-only data, data, .bss,
/// proxy, frame-memory and outer-kernel sections and of every device register range is
/// mapped to itself, readable and writable, with the valid, accessed and dirty bits set
/// (flags 0xc7), whatever else overlaps it, unless its slot is that of a trampoline or of
/// the proxy context (whose frame is kept when it is mapped again).
pub proof fn lemma_kernel_data_pages(l: KernelLayout, v: usize)
    requires
        in_data_sections(l, v),
        !trampoline_slot(l, v),
    ensures
        kernel_view(l)(v) == Some(((v as u64) << 10) | 0xc7),
{
    let secs = kernel_sections(l);
    let t = trampoline_view(l);
    lemma_kernel_sections_shape(l);
    assert(t(v) is None);
    let i: int = if in_pages(v, l.srodata as int, l.erodata as int) {
        1
    } else if in_pages(v, l.sdata as int, l.edata as int) {
        2
    } else if in_pages(v, l.sbss_with_stack as int, l.ebss as int) {
        3
    } else if in_pages(v, l.sproxy as int, l.eproxy as int) {
        4
    } else if in_pages(v, l.ekernel as int, l.nkspace_end as int) {
        5
    } else if in_pages(v, l.nkspace_end as int, l.okspace_end as int) {
        6
    } else {
        let j = choose|j: int| 0 <= j < l.mmio@.len() && in_pages(v, #[trigger] l.mmio@[j].0 as int, l.mmio@[j].0 + l.mmio@[j].1);
        assert(secs[7 + j] == (l.mmio@[j].0 as int, l.mmio@[j].0 + l.mmio@[j].1, 6u16));
        7 + j
    };
    assert(in_pages(v, secs[i].0, secs[i].1));
    let k = lemma_last_holder(secs, v, i);
    lemma_sections_view_slot(t, secs, v);
    assert(secs[k].2 == 6);
    assert(kernel_view(l)(v) == Some(pte_bits(v, map_flags(6))));
    assert(map_flags(6) == 0xc7) by (bit_vector);
}

/// In the nested kernel's own address space, a page of the text section that no later
/// section or device range holds is mapped to itself, readable, writable and executable, with
/// the valid, accessed and dirty bits set (flags 0xcf), unless its slot is that of a
/// trampoline or of the proxy context.
pub proof fn lemma_kernel_text_pages(l: KernelLayout, v: usize)
    requires
        in_pages(v, l.stext as int, l.etext as int),
        !in_data_sections(l, v),
        !trampoline_slot(l, v),
    ensures
        kernel_view(l)(v) == Some(((v as u64) << 10) | 0xcf),
{
    let secs = kernel_sections(l);
    let t = trampoline_view(l);
    lemma_kernel_sections_shape(l);
    assert(t(v) is None);
    assert forall|j: int| 0 < j < secs.len() implies !in_pages(v, #[trigger] secs[j].0, secs[j].1) by {
        if j >= 7 {
            let m = j - 7;
            assert(secs[7 + m] == (l.mmio@[m].0 as int, l.mmio@[m].0 + l.mmio@[m].1, 6u16));
            if in_pages(v, secs[j].0, secs[j].1) {
                assert(in_pages(v, l.mmio@[m].0 as int, l.mmio@[m].0 + l.mmio@[m].1));
            }
        }
    }
    lemma_sections_view_slot(t, secs, v);
    assert(in_pages(v, secs[0].0, secs[0].1));
    assert(kernel_view(l)(v) == Some(pte_bits(v, map_flags(secs[0].2))));
    assert(map_flags(0xe) == 0xcf) by (bit_vector);
}

/// Whether no section or device range of the kernel holds page slot `v`.
pub open spec fn outside_sections(l: KernelLayout, v: usize) -> bool {
    !in_data_sections(l, v) && !in_pages(v, l.stext as int, l.etext as int)
}

/// No area of the kernel space holds a slot that no section or device range holds.
proof fn lemma_outside_sections(l: KernelLayout, v: usize)
    requires
        outside_sections(l, v),
    ensures
        forall|i: int| 0 <= i < kernel_sections(l).len() ==> !in_pages(v, #[trigger] kernel_sections(l)[i].0, kernel_sections(l)[i].1),
{
    lemma_kernel_sections_shape(l);
    let secs = kernel_sections(l);
    assert forall|i: int| 0 <= i < secs.len() implies !in_pages(v, #[trigger] secs[i].0, secs[i].1) by {
        if i >= 7 {
            let m = i - 7;
            assert(secs[7 + m] == (l.mmio@[m].0 as int, l.mmio@[m].0 + l.mmio@[m].1, 6u16));
            if in_pages(v, secs[i].0, secs[i].1) {
                assert(in_pages(v, l.mmio@[m].0 as int, l.mmio@[m].0 + l.mmio@[m].1));
            }
        }
    }
}

/// In the nested kernel's own address space, when the slots of the trampoline, the
/// nested-kernel trampoline and the proxy context are distinct and no section or device range
/// holds them: the trampoline is mapped to the page of `strampoline`, readable, writable and
/// executable (flags 0xcf); the nested-kernel trampoline to the page of `snktrampoline`,
/// readable and executable (0xcb); and the proxy context to the page of `sproxy`, readable
/// and writable (0xc7).
pub proof fn lemma_kernel_trampolines(l: KernelLayout)
    requires
        ({
            let a = (page_floor(l.trampoline as int) as usize) % SV39_PAGES;
            let b = (page_floor(l.nk_trampoline as int) as usize) % SV39_PAGES;
            let c = (page_floor(l.proxy_context as int) as usize) % SV39_PAGES;
            a != b && a != c && b != c && outside_sections(l, a) && outside_sections(l, b) && outside_sections(l, c)
        }),
    ensures
        kernel_view(l)((page_floor(l.trampoline as int) as usize) % SV39_PAGES) == Some(((page_floor(
            l.strampoline as int,
        ) as usize as u64) << 10) | 0xcf),
        kernel_view(l)((page_floor(l.nk_trampoline as int) as usize) % SV39_PAGES) == Some(((page_floor(
            l.snktrampoline as int,
        ) as usize as u64) << 10) | 0xcb),
        kernel_view(l)((page_floor(l.proxy_context as int) as usize) % SV39_PAGES) == Some(((page_floor(
            l.sproxy as int,
        ) as usize as u64) << 10) | 0xc7),
{
    let a = (page_floor(l.trampoline as int) as usize) % SV39_PAGES;
    let b = (page_floor(l.nk_trampoline as int) as usize) % SV39_PAGES;
    let c = (page_floor(l.proxy_context as int) as usize) % SV39_PAGES;
    let secs = kernel_sections(l);
    let t = trampoline_view(l);
    lemma_kernel_sections_shape(l);
    lemma_outside_sections(l, a);
    lemma_outside_sections(l, b);
    lemma_outside_sections(l, c);
    lemma_sections_view_slot(t, secs, a);
    lemma_sections_view_slot(t, secs, b);
    lemma_sections_view_slot(t, secs, c);
    assert(map_flags(0xe) == 0xcf) by (bit_vector);
    assert(map_flags(0xa) == 0xcb) by (bit_vector);
    assert(map_flags(0x6) == 0xc7) by (bit_vector);
    assert(t(a) == Some(pte_bits(page_floor(l.strampoline as int) as usize, 0xcf)));
    assert(t(b) == Some(pte_bits(page_floor(l.snktrampoline as int) as usize, 0xcb)));
    assert(t(c) == Some(pte_bits(page_floor(l.sproxy as int) as usize, 0xc7)));
}

} // verus!
