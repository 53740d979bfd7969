use vstd::prelude::*;
use crate::config::{PAGE_SIZE, MEMORY_END, USER_STACK_SIZE, TRAMPOLINE, TRAP_CONTEXT};
use crate::memory::address::{VirtAddr, VirtPageNum, PhysPageNum, VPNRange, VPN_LIMIT, floor_vpn, ceil_vpn, va_of};
use crate::memory::elf::{ElfHeaderInfo, ProgramHeaderInfo, elf_header, elf_program_header, ph_readable, parse_elf_header, parse_program_header};
use crate::memory::frame_allocator::{FrameTracker, StackFrameAllocator, frame_alloc, frame_dealloc, zero_page};
use crate::memory::page_table::{PageTable, PageTableEntry, PTE_V, PTE_R, PTE_W, PTE_X, PTE_U};
use crate::memory::elf::{PF_R, PF_W, PF_X};
use crate::memory::sv39::{TableFrame, TABLE_ENTRIES, SV39_PPN_LIMIT, SV39_VPN_LIMIT, sv39_encodable, sv39_frames_needed, sv39_walk};

verus! {

/// How the pages of an area find their frames.
#[derive(Copy, Clone, PartialEq, Eq, Debug, Structural)]
pub enum MapType {
    /// Page `n` maps to frame `n`.
    Identical,
    /// Each page gets a frame of its own from the allocator.
    Framed,
}

/// Access rights of an area, with the bit layout of the page-table flags.
#[derive(Copy, Clone, PartialEq, Eq, Debug, Structural)]
pub struct MapPermission {
    pub bits: u8,
}

pub const PERM_R: u8 = 2;
pub const PERM_W: u8 = 4;
pub const PERM_X: u8 = 8;
pub const PERM_U: u8 = 16;

impl MapPermission {
    /// The permission with exactly the bits of `bits` that name a right.
    pub fn from_bits_truncate(bits: u8) -> (r: MapPermission)
        ensures
            r.bits == bits & 30u8,
    {
        MapPermission { bits: bits & 30u8 }
    }

    pub fn empty() -> (r: MapPermission)
        ensures
            r.bits == 0,
    {
        MapPermission { bits: 0 }
    }

    pub fn r() -> (r: MapPermission)
        ensures
            r.bits == PERM_R,
    {
        MapPermission { bits: PERM_R }
    }

    pub fn w() -> (r: MapPermission)
        ensures
            r.bits == PERM_W,
    {
        MapPermission { bits: PERM_W }
    }

    pub fn x() -> (r: MapPermission)
        ensures
            r.bits == PERM_X,
    {
        MapPermission { bits: PERM_X }
    }

    pub fn u() -> (r: MapPermission)
        ensures
            r.bits == PERM_U,
    {
        MapPermission { bits: PERM_U }
    }

    /// The rights of both.
    pub fn union(self, other: MapPermission) -> (r: MapPermission)
        ensures
            r.bits == self.bits | other.bits,
    {
        MapPermission { bits: self.bits | other.bits }
    }

    /// Whether every right of `other` is in `self`.
    pub fn contains(&self, other: MapPermission) -> (r: bool)
        ensures
            r == (self.bits & other.bits == other.bits),
    {
        self.bits & other.bits == other.bits
    }

    pub fn bits(&self) -> (r: u8)
        ensures
            r == self.bits,
    {
        self.bits
    }
}

/// A contiguous range of virtual pages with one mapping rule and one set of
/// rights. Slot `i` of `data_frames` holds the frame of page `start + i`.
pub struct MapArea {
    vpn_range: VPNRange,
    data_frames: Vec<Option<FrameTracker>>,
    map_type: MapType,
    map_perm: MapPermission,
}

/// Page `i` of a page image after `data` is copied in from the start of the
/// area: the bytes of `data` that fall in the page, then what was there.
pub open spec fn page_image(old_page: Seq<u8>, data: Seq<u8>, i: int) -> Seq<u8> {
    let lo = i * PAGE_SIZE;
    if data.len() <= lo {
        old_page
    } else if data.len() >= lo + PAGE_SIZE {
        data.subrange(lo, lo + PAGE_SIZE)
    } else {
        data.subrange(lo, data.len() as int) + old_page.subrange(data.len() - lo, PAGE_SIZE as int)
    }
}

impl MapArea {
    pub closed spec fn typ(&self) -> MapType {
        self.map_type
    }

    pub closed spec fn perm(&self) -> MapPermission {
        self.map_perm
    }

    pub closed spec fn start(&self) -> int {
        self.vpn_range.start.0 as int
    }

    pub closed spec fn end(&self) -> int {
        self.vpn_range.end.0 as int
    }

    /// The frame in slot `i`, if any.
    pub closed spec fn slot(&self, i: int) -> Option<FrameTracker> {
        if 0 <= i < self.data_frames@.len() {
            self.data_frames@[i]
        } else {
            None
        }
    }

    /// Slots match the page range; identical areas hold no frames; held frames
    /// are page sized.
    pub closed spec fn wf(&self) -> bool {
        &&& self.vpn_range.start.0 <= self.vpn_range.end.0 <= VPN_LIMIT
        &&& self.data_frames@.len() == self.end() - self.start()
        &&& forall|i: int| 0 <= i < self.data_frames@.len() && #[trigger] self.data_frames@[i] is Some
            ==> self.map_type == MapType::Framed && self.data_frames@[i]->0.wf()
    }

    /// No slot holds a frame.
    pub closed spec fn empty_slots(&self) -> bool {
        forall|i: int| 0 <= i < self.data_frames@.len() ==> #[trigger] self.data_frames@[i] is None
    }

    /// A framed area holds a frame for each of its pages.
    pub closed spec fn full_slots(&self) -> bool {
        self.map_type == MapType::Framed ==> forall|i: int|
            0 <= i < self.data_frames@.len() ==> #[trigger] self.data_frames@[i] is Some
    }

    /// The frame number held in slot `i`, if any.
    pub open spec fn slot_ppn(&self, i: int) -> Option<u64> {
        if 0 <= i < self.end() - self.start() && self.slot(i) is Some {
            Some(self.slot(i)->0.ppn.0)
        } else {
            None
        }
    }

    /// No frame is held twice.
    pub open spec fn frames_distinct(&self) -> bool {
        forall|i: int, j: int|
            #![trigger self.slot_ppn(i), self.slot_ppn(j)]
            self.slot_ppn(i) is Some && self.slot_ppn(i) == self.slot_ppn(j) ==> i == j
    }

    /// The frames the area holds.
    pub open spec fn frames(&self) -> Set<u64> {
        Set::new(|p: u64| exists|i: int| #[trigger] self.slot_ppn(i) == Some(p))
    }

    /// The entry that page `vpn` of the area maps to.
    pub open spec fn leaf(&self, vpn: u64) -> PageTableEntry {
        PageTableEntry {
            ppn: if self.typ() == MapType::Identical {
                PhysPageNum(vpn)
            } else {
                self.slot(vpn - self.start())->0.ppn
            },
            flags: self.perm().bits | PTE_V,
        }
    }

    /// The leaf mappings the area stands for.
    pub open spec fn mapping(&self) -> Map<u64, PageTableEntry> {
        Map::new(|v: u64| self.start() <= v < self.end(), |v: u64| self.leaf(v))
    }

    /// The area of pages `[floor(start_va), ceil(end_va))`, holding no frame yet.
    pub fn new(start_va: VirtAddr, end_va: VirtAddr, map_type: MapType, map_perm: MapPermission) -> (r: MapArea)
        requires
            end_va.0 < 0x80_0000_0000,
            floor_vpn(start_va.0 as int) <= ceil_vpn(end_va.0 as int),
        ensures
            r.wf(),
            r.empty_slots(),
            r.start() == floor_vpn(start_va.0 as int),
            r.end() == ceil_vpn(end_va.0 as int),
            r.typ() == map_type,
            r.perm() == map_perm,
    {
        let start_vpn = start_va.floor();
        let end_vpn = end_va.ceil();
        Self::with_range(VPNRange::new(start_vpn, end_vpn), map_type, map_perm)
    }

    fn with_range(range: VPNRange, map_type: MapType, map_perm: MapPermission) -> (r: MapArea)
        requires
            range.start.0 <= range.end.0 <= VPN_LIMIT,
        ensures
            r.wf(),
            r.empty_slots(),
            r.start() == range.start.0,
            r.end() == range.end.0,
            r.typ() == map_type,
            r.perm() == map_perm,
    {
        let n = range.end.0 - range.start.0;
        let mut data_frames: Vec<Option<FrameTracker>> = Vec::new();
        let mut i: u64 = 0;
        while i < n
            invariant
                i <= n,
                data_frames@.len() == i,
                forall|k: int| 0 <= k < i ==> #[trigger] data_frames@[k] is None,
            decreases n - i,
        {
            data_frames.push(None);
            i = i + 1;
        }
        MapArea { vpn_range: range, data_frames, map_type, map_perm }
    }

    /// An area with the same pages, mapping rule and rights as `another`,
    /// holding no frame yet.
    pub fn from_another(another: &MapArea) -> (r: MapArea)
        requires
            another.wf(),
        ensures
            r.wf(),
            r.empty_slots(),
            r.start() == another.start(),
            r.end() == another.end(),
            r.typ() == another.typ(),
            r.perm() == another.perm(),
    {
        Self::with_range(
            VPNRange::new(another.vpn_range.get_start(), another.vpn_range.get_end()),
            another.map_type,
            another.map_perm,
        )
    }

    /// 1 when the pages `[start_vpn, end_vpn)` meet the area, else 0.
    pub fn contains(&self, start_vpn: VirtPageNum, end_vpn: VirtPageNum) -> (r: i32)
        ensures
            r == (if start_vpn.0 >= self.end() || end_vpn.0 <= self.start() { 0i32 } else { 1i32 }),
    {
        if start_vpn.0 >= self.vpn_range.get_end().0 || end_vpn.0 <= self.vpn_range.get_start().0 {
            0
        } else {
            1
        }
    }

    /// The pages of the area.
    pub fn vpn_range(&self) -> (r: VPNRange)
        ensures
            r.start.0 == self.start(),
            r.end.0 == self.end(),
    {
        self.vpn_range
    }

    pub fn map_type(&self) -> (r: MapType)
        ensures
            r == self.typ(),
    {
        self.map_type
    }

    pub fn map_perm(&self) -> (r: MapPermission)
        ensures
            r == self.perm(),
    {
        self.map_perm
    }

    /// Maps page `vpn` of the area: to frame `vpn` when identical, else to a
    /// fresh zeroed frame that the area keeps; a frame the area held for the
    /// page before goes back to the allocator.
    pub fn map_one(&mut self, page_table: &mut PageTable, allocator: &mut StackFrameAllocator, vpn: VirtPageNum)
        requires
            old(self).wf(),
            old(page_table).wf(),
            old(allocator).wf(),
            old(self).start() <= vpn.0 < old(self).end(),
            !old(page_table)@.contains_key(vpn.0),
            old(self).slot(vpn.0 - old(self).start()) matches Some(g) ==> old(allocator).in_use(g.ppn.0),
            old(self).typ() == MapType::Framed ==> old(allocator).free_count() > 0,
        ensures
            final(self).wf(),
            final(self).start() == old(self).start(),
            final(self).end() == old(self).end(),
            final(self).typ() == old(self).typ(),
            final(self).perm() == old(self).perm(),
            forall|i: int| i != vpn.0 - old(self).start() ==> #[trigger] final(self).slot(i) == old(self).slot(i),
            final(page_table).wf(),
            final(page_table).root() == old(page_table).root(),
            final(page_table)@ == old(page_table)@.insert(vpn.0, final(self).leaf(vpn.0)),
            final(allocator).wf(),
            old(self).typ() == MapType::Identical ==> {
                &&& final(self).slot(vpn.0 - old(self).start()) is None
                &&& forall|p: u64| final(allocator).in_use(p) <==> old(allocator).in_use(p)
                &&& final(allocator).free_count() == old(allocator).free_count()
            },
            old(self).typ() == MapType::Framed ==> {
                let f = final(self).slot(vpn.0 - old(self).start());
                &&& f is Some
                &&& f->0.data@ == Seq::new(PAGE_SIZE as nat, |k: int| 0u8)
                &&& Some(f->0.ppn.0) == old(allocator).next_frame()
                &&& !old(allocator).in_use(f->0.ppn.0)
                &&& final(allocator).in_use(f->0.ppn.0)
            },
            old(self).typ() == MapType::Framed && old(self).slot(vpn.0 - old(self).start()) is None ==> {
                let f = final(self).slot(vpn.0 - old(self).start());
                &&& forall|p: u64| p != f->0.ppn.0 ==> (final(allocator).in_use(p) <==> old(allocator).in_use(p))
                &&& final(allocator).free_count() + 1 == old(allocator).free_count()
            },
            old(self).slot(vpn.0 - old(self).start()) matches Some(g) ==> {
                let f = final(self).slot(vpn.0 - old(self).start());
                &&& forall|p: u64| p != f->0.ppn.0 ==> (final(allocator).in_use(p) <==> (old(allocator).in_use(p) && p != g.ppn.0))
                &&& final(allocator).free_count() == old(allocator).free_count()
            },
    {
        let idx = (vpn.0 - self.vpn_range.start.0) as usize;
        let ppn = match self.map_type {
            MapType::Identical => {
                proof {
                    assert(self.slot(idx as int) is None);
                }
                PhysPageNum(vpn.0)
            },
            MapType::Framed => {
                let frame = match frame_alloc(allocator) {
                    Some(f) => f,
                    None => {
                        proof { assert(false); }
                        return;
                    }
                };
                let ppn = frame.ppn;
                let ghost prev_frames = self.data_frames@;
                let before = self.data_frames.remove(idx);
                self.data_frames.insert(idx, Some(frame));
                proof {
                    assert(self.data_frames@ =~= prev_frames.update(idx as int, Some(frame)));
                }
                if let Some(g) = before {
                    proof {
                        assert(g.ppn.0 != ppn.0);
                    }
                    frame_dealloc(allocator, g);
                }
                ppn
            }
        };
        let flags = self.map_perm.bits;
        page_table.map(vpn, ppn, flags);
    }

    /// Unmaps page `vpn` of the area and gives back the frame the area held
    /// for it, if any.
    pub fn unmap_one(&mut self, page_table: &mut PageTable, allocator: &mut StackFrameAllocator, vpn: VirtPageNum)
        requires
            old(self).wf(),
            old(page_table).wf(),
            old(allocator).wf(),
            old(self).start() <= vpn.0 < old(self).end(),
            old(page_table)@.contains_key(vpn.0),
            old(self).slot(vpn.0 - old(self).start()) matches Some(f) ==> old(allocator).in_use(f.ppn.0),
        ensures
            final(self).wf(),
            final(self).start() == old(self).start(),
            final(self).end() == old(self).end(),
            final(self).typ() == old(self).typ(),
            final(self).perm() == old(self).perm(),
            final(self).slot(vpn.0 - old(self).start()) is None,
            forall|i: int| i != vpn.0 - old(self).start() ==> #[trigger] final(self).slot(i) == old(self).slot(i),
            final(page_table).wf(),
            final(page_table).root() == old(page_table).root(),
            final(page_table)@ == old(page_table)@.remove(vpn.0),
            final(allocator).wf(),
            old(self).slot(vpn.0 - old(self).start()) matches Some(f) ==> {
                &&& forall|p: u64| (final(allocator).in_use(p) <==> (old(allocator).in_use(p) && p != f.ppn.0))
                &&& final(allocator).free_count() == old(allocator).free_count() + 1
            },
            old(self).slot(vpn.0 - old(self).start()) is None ==> {
                &&& forall|p: u64| final(allocator).in_use(p) <==> old(allocator).in_use(p)
                &&& final(allocator).free_count() == old(allocator).free_count()
            },
    {
        let idx = (vpn.0 - self.vpn_range.start.0) as usize;
        if self.map_type == MapType::Framed {
            let slot = self.data_frames.remove(idx);
            self.data_frames.insert(idx, None);
            if let Some(frame) = slot {
                frame_dealloc(allocator, frame);
            }
        } else {
            assert(self.slot(idx as int) is None);
        }
        page_table.unmap(vpn);
    }

    /// The leaf mappings of the pages of the area below page `n`.
    pub open spec fn mapping_below(&self, n: int) -> Map<u64, PageTableEntry> {
        Map::new(|v: u64| self.start() <= v < n, |v: u64| self.leaf(v))
    }

    /// Maps every page of the area; a framed area takes a fresh zeroed frame
    /// for each page.
    pub fn map(&mut self, page_table: &mut PageTable, allocator: &mut StackFrameAllocator)
        requires
            old(self).wf(),
            old(self).empty_slots(),
            old(page_table).wf(),
            old(allocator).wf(),
            forall|v: u64| old(self).start() <= v < old(self).end() ==> !old(page_table)@.contains_key(v),
            old(self).typ() == MapType::Framed ==> old(allocator).free_count() >= old(self).end() - old(self).start(),
        ensures
            final(self).wf(),
            final(self).start() == old(self).start(),
            final(self).end() == old(self).end(),
            final(self).typ() == old(self).typ(),
            final(self).perm() == old(self).perm(),
            final(self).full_slots(),
            final(self).frames_distinct(),
            forall|i: int| #[trigger] final(self).slot(i) matches Some(f) ==> f.data@ == zero_page(),
            final(page_table).wf(),
            final(page_table).root() == old(page_table).root(),
            final(page_table)@ == old(page_table)@.union_prefer_right(final(self).mapping()),
            final(allocator).wf(),
            forall|p: u64| final(allocator).in_use(p) <==> (old(allocator).in_use(p) || final(self).frames().contains(p)),
            forall|p: u64| final(self).frames().contains(p) ==> !old(allocator).in_use(p),
            old(self).typ() == MapType::Framed ==> final(allocator).free_count() == old(allocator).free_count() - (old(self).end() - old(self).start()),
            old(self).typ() == MapType::Identical ==> final(allocator).free_count() == old(allocator).free_count(),
    {
        let end = self.vpn_range.end.0;
        let mut cur = self.vpn_range.start.0;
        while cur < end
            invariant
                self.wf(),
                self.start() == old(self).start(),
                self.end() == old(self).end(),
                self.typ() == old(self).typ(),
                self.perm() == old(self).perm(),
                end == self.end(),
                self.start() <= cur <= end,
                forall|i: int| cur - self.start() <= i ==> #[trigger] self.slot(i) is None,
                self.typ() == MapType::Framed ==> forall|i: int| 0 <= i < cur - self.start() ==> #[trigger] self.slot(i) is Some,
                forall|i: int| #[trigger] self.slot(i) matches Some(f) ==> f.data@ == zero_page(),
                self.frames_distinct(),
                page_table.wf(),
                page_table.root() == old(page_table).root(),
                page_table@ == old(page_table)@.union_prefer_right(self.mapping_below(cur as int)),
                forall|v: u64| cur <= v < end ==> !old(page_table)@.contains_key(v),
                allocator.wf(),
                forall|p: u64| allocator.in_use(p) <==> (old(allocator).in_use(p) || self.frames().contains(p)),
                forall|p: u64| self.frames().contains(p) ==> !old(allocator).in_use(p),
                self.typ() == MapType::Framed ==> allocator.free_count() == old(allocator).free_count() - (cur - self.start()),
                self.typ() == MapType::Identical ==> allocator.free_count() == old(allocator).free_count(),
                old(self).typ() == MapType::Framed ==> old(allocator).free_count() >= old(self).end() - old(self).start(),
            decreases end - cur,
        {
            let ghost prev = *self;
            let ghost prev_pt = page_table@;
            let ghost prev_alloc = *allocator;
            assert(!page_table@.contains_key(cur));
            self.map_one(page_table, allocator, VirtPageNum(cur));
            proof {
                let idx = cur - self.start();
                assert forall|i: int, j: int|
                    #![trigger self.slot_ppn(i), self.slot_ppn(j)]
                    self.slot_ppn(i) is Some && self.slot_ppn(i) == self.slot_ppn(j) implies i == j by {
                    if i != idx && j != idx {
                        assert(prev.slot_ppn(i) == self.slot_ppn(i));
                        assert(prev.slot_ppn(j) == self.slot_ppn(j));
                    } else if i == idx && j != idx {
                        assert(prev.slot_ppn(j) == self.slot_ppn(j));
                        assert(prev.frames().contains(self.slot_ppn(j)->0));
                    } else if j == idx && i != idx {
                        assert(prev.slot_ppn(i) == self.slot_ppn(i));
                        assert(prev.frames().contains(self.slot_ppn(i)->0));
                    }
                }
                assert forall|p: u64| self.frames().contains(p) <==> (prev.frames().contains(p)
                    || (self.typ() == MapType::Framed && p == self.slot(idx)->0.ppn.0)) by {
                    if self.frames().contains(p) {
                        let i = choose|i: int| #[trigger] self.slot_ppn(i) == Some(p);
                        if i != idx {
                            assert(prev.slot_ppn(i) == Some(p));
                        }
                    }
                    if prev.frames().contains(p) {
                        let i = choose|i: int| #[trigger] prev.slot_ppn(i) == Some(p);
                        assert(i != idx);
                        assert(self.slot_ppn(i) == Some(p));
                    }
                    if self.typ() == MapType::Framed && p == self.slot(idx)->0.ppn.0 {
                        assert(self.slot_ppn(idx) == Some(p));
                    }
                }
                assert forall|v: u64| #[trigger] self.mapping_below(cur + 1).contains_key(v) implies
                    self.mapping_below(cur + 1)[v] == (if v == cur { self.leaf(cur) } else { prev.mapping_below(cur as int)[v] }) by {
                    if v != cur {
                        assert(self.slot(v - self.start()) == prev.slot(v - self.start()));
                    }
                }
                assert(page_table@ =~= old(page_table)@.union_prefer_right(self.mapping_below(cur + 1)));
            }
            cur = cur + 1;
        }
        proof {
            assert(self.mapping_below(end as int) =~= self.mapping());
            if self.typ() == MapType::Framed {
                assert forall|i: int| 0 <= i < self.data_frames@.len() implies #[trigger] self.data_frames@[i] is Some by {
                    assert(self.slot(i) is Some);
                }
            }
        }
    }

    /// The pages of the area.
    pub open spec fn pages(&self) -> Set<u64> {
        Set::new(|v: u64| self.start() <= v < self.end())
    }

    /// Frames held in the slots below `n`.
    pub open spec fn frames_below(&self, n: int) -> Set<u64> {
        Set::new(|p: u64| exists|i: int| 0 <= i < n && #[trigger] self.slot_ppn(i) == Some(p))
    }

    /// Number of frames held in the slots below `n`.
    pub open spec fn count_below(&self, n: int) -> int
        decreases n,
    {
        if n <= 0 {
            0
        } else {
            self.count_below(n - 1) + if self.slot(n - 1) is Some { 1int } else { 0int }
        }
    }

    proof fn lemma_count_below_full(&self, n: int)
        requires
            0 <= n <= self.end() - self.start(),
            self.wf(),
            self.full_slots(),
            self.typ() == MapType::Framed,
        ensures
            self.count_below(n) == n,
        decreases n,
    {
        if n > 0 {
            self.lemma_count_below_full(n - 1);
            assert(self.data_frames@[n - 1] is Some);
        }
    }

    /// Unmaps every page of the area and gives back every frame it holds.
    pub fn unmap(&mut self, page_table: &mut PageTable, allocator: &mut StackFrameAllocator)
        requires
            old(self).wf(),
            old(self).frames_distinct(),
            old(page_table).wf(),
            old(allocator).wf(),
            forall|v: u64| old(self).start() <= v < old(self).end() ==> old(page_table)@.contains_key(v),
            forall|p: u64| old(self).frames().contains(p) ==> old(allocator).in_use(p),
        ensures
            final(self).wf(),
            final(self).start() == old(self).start(),
            final(self).end() == old(self).end(),
            final(self).typ() == old(self).typ(),
            final(self).perm() == old(self).perm(),
            final(self).empty_slots(),
            final(page_table).wf(),
            final(page_table).root() == old(page_table).root(),
            final(page_table)@ == old(page_table)@.remove_keys(old(self).pages()),
            final(allocator).wf(),
            forall|p: u64| final(allocator).in_use(p) <==> (old(allocator).in_use(p) && !old(self).frames().contains(p)),
            final(allocator).free_count() == old(allocator).free_count() + old(self).count_below(old(self).end() - old(self).start()),
            old(self).typ() == MapType::Framed && old(self).full_slots() ==>
                final(allocator).free_count() == old(allocator).free_count() + (old(self).end() - old(self).start()),
    {
        let start = self.vpn_range.start.0;
        let end = self.vpn_range.end.0;
        let mut cur = start;
        while cur < end
            invariant
                self.wf(),
                self.start() == old(self).start(),
                self.end() == old(self).end(),
                self.typ() == old(self).typ(),
                self.perm() == old(self).perm(),
                start == self.start(),
                end == self.end(),
                start <= cur <= end,
                old(self).wf(),
                old(self).frames_distinct(),
                forall|i: int| 0 <= i < cur - start ==> #[trigger] self.slot(i) is None,
                forall|i: int| cur - start <= i ==> #[trigger] self.slot(i) == old(self).slot(i),
                page_table.wf(),
                page_table.root() == old(page_table).root(),
                page_table@ == old(page_table)@.remove_keys(Set::new(|v: u64| start <= v < cur)),
                forall|v: u64| cur <= v < end ==> old(page_table)@.contains_key(v),
                allocator.wf(),
                forall|p: u64| old(self).frames().contains(p) ==> old(allocator).in_use(p),
                forall|p: u64| allocator.in_use(p) <==> (old(allocator).in_use(p) && !old(self).frames_below(cur - start).contains(p)),
                allocator.free_count() == old(allocator).free_count() + old(self).count_below(cur - start),
            decreases end - cur,
        {
            let ghost prev = *self;
            let ghost idx = cur - start;
            proof {
                if let Some(f) = self.slot(idx) {
                    assert(old(self).slot_ppn(idx) == Some(f.ppn.0));
                    assert(old(self).frames().contains(f.ppn.0));
                    assert(!old(self).frames_below(idx).contains(f.ppn.0)) by {
                        if old(self).frames_below(idx).contains(f.ppn.0) {
                            let i = choose|i: int| 0 <= i < idx && #[trigger] old(self).slot_ppn(i) == Some(f.ppn.0);
                            assert(old(self).slot_ppn(idx) == Some(f.ppn.0));
                        }
                    }
                }
                assert(page_table@.contains_key(cur));
            }
            self.unmap_one(page_table, allocator, VirtPageNum(cur));
            proof {
                assert forall|p: u64| old(self).frames_below(idx + 1).contains(p) <==>
                    (old(self).frames_below(idx).contains(p) || old(self).slot_ppn(idx) == Some(p)) by {
                    if old(self).frames_below(idx + 1).contains(p) {
                        let i = choose|i: int| 0 <= i < idx + 1 && #[trigger] old(self).slot_ppn(i) == Some(p);
                        if i < idx {
                            assert(old(self).frames_below(idx).contains(p));
                        }
                    }
                    if old(self).frames_below(idx).contains(p) {
                        let i = choose|i: int| 0 <= i < idx && #[trigger] old(self).slot_ppn(i) == Some(p);
                        assert(old(self).frames_below(idx + 1).contains(p));
                    }
                    if old(self).slot_ppn(idx) == Some(p) {
                        assert(old(self).frames_below(idx + 1).contains(p));
                    }
                }
                assert(page_table@ =~= old(page_table)@.remove_keys(Set::new(|v: u64| start <= v < cur + 1)));
                assert(old(self).count_below(idx + 1) == old(self).count_below(idx)
                    + if old(self).slot(idx) is Some { 1int } else { 0int });
            }
            cur = cur + 1;
        }
        proof {
            assert(Set::new(|v: u64| start <= v < end) =~= old(self).pages());
            assert forall|p: u64| old(self).frames_below(end - start).contains(p) <==> old(self).frames().contains(p) by {
                if old(self).frames().contains(p) {
                    let i = choose|i: int| #[trigger] old(self).slot_ppn(i) == Some(p);
                    assert(0 <= i < end - start);
                }
            }
            assert forall|i: int| 0 <= i < self.data_frames@.len() implies #[trigger] self.data_frames@[i] is None by {
                assert(self.slot(i) is None);
            }
            if old(self).typ() == MapType::Framed && old(self).full_slots() {
                old(self).lemma_count_below_full(end - start);
            }
        }
    }

    /// Copies `data` into the frames of the area, from the first byte of its
    /// first page on; what lies past the end of `data` is left as it was.
    pub fn copy_data(&mut self, data: &[u8])
        requires
            old(self).wf(),
            old(self).typ() == MapType::Framed,
            old(self).full_slots(),
            data@.len() <= (old(self).end() - old(self).start()) * PAGE_SIZE,
        ensures
            final(self).wf(),
            final(self).start() == old(self).start(),
            final(self).end() == old(self).end(),
            final(self).typ() == old(self).typ(),
            final(self).perm() == old(self).perm(),
            final(self).full_slots(),
            forall|i: int| #[trigger] final(self).slot_ppn(i) == old(self).slot_ppn(i),
            forall|i: int| 0 <= i < final(self).end() - final(self).start() ==>
                #[trigger] final(self).slot(i)->0.data@ == page_image(old(self).slot(i)->0.data@, data@, i),
    {
        let len = data.len();
        let mut i: usize = 0;
        let mut off: usize = 0;
        while off < len
            invariant
                self.wf(),
                self.start() == old(self).start(),
                self.end() == old(self).end(),
                self.typ() == old(self).typ(),
                self.perm() == old(self).perm(),
                self.typ() == MapType::Framed,
                self.full_slots(),
                len == data@.len(),
                len <= (self.end() - self.start()) * PAGE_SIZE,
                off <= i * PAGE_SIZE,
                off < len ==> off == i * PAGE_SIZE,
                off < len ==> i < self.end() - self.start(),
                forall|k: int| #[trigger] self.slot_ppn(k) == old(self).slot_ppn(k),
                forall|k: int| 0 <= k < i ==>
                    #[trigger] self.slot(k)->0.data@ == page_image(old(self).slot(k)->0.data@, data@, k),
                forall|k: int| i <= k < self.end() - self.start() ==> #[trigger] self.slot(k) == old(self).slot(k),
            decreases len - off,
        {
            let n = if len - off < PAGE_SIZE { len - off } else { PAGE_SIZE };
            let ghost prev_frames = self.data_frames@;
            let ghost prev = *self;
            let slot = self.data_frames.remove(i);
            let mut frame = match slot {
                Some(f) => f,
                None => {
                    proof { assert(self.slot(i as int) is Some); assert(false); }
                    return;
                }
            };
            let ghost old_bytes = frame.data@;
            let ghost old_ppn = frame.ppn;
            assert(old_bytes.len() == PAGE_SIZE);
            let mut k: usize = 0;
            while k < n
                invariant
                    k <= n,
                    n <= PAGE_SIZE,
                    off + n <= len,
                    len == data@.len(),
                    frame.data@.len() == PAGE_SIZE,
                    old_bytes.len() == PAGE_SIZE,
                    frame.ppn == old_ppn,
                    forall|j: int| 0 <= j < k ==> #[trigger] frame.data@[j] == data@[off + j],
                    forall|j: int| k <= j < PAGE_SIZE ==> #[trigger] frame.data@[j] == old_bytes[j],
                decreases n - k,
            {
                frame.data.set(k, data[off + k]);
                k = k + 1;
            }
            proof {
                let img = page_image(old_bytes, data@, i as int);
                assert(i as int * PAGE_SIZE == off);
                assert(frame.data@ =~= img);
            }
            assert(frame.ppn == old_ppn);
            self.data_frames.insert(i, Some(frame));
            proof {
                assert(self.data_frames@ =~= prev_frames.update(i as int, Some(frame)));
                assert forall|k: int| #[trigger] self.slot_ppn(k) == old(self).slot_ppn(k) by {
                    assert(prev.slot_ppn(k) == old(self).slot_ppn(k));
                    if k == i {
                        assert(prev_frames[k]->0.ppn == old_ppn);
                    } else {
                        assert(self.slot(k) == prev.slot(k));
                    }
                }
                assert forall|k: int| 0 <= k < i + 1 implies
                    #[trigger] self.slot(k)->0.data@ == page_image(old(self).slot(k)->0.data@, data@, k) by {
                    if k < i {
                        assert(self.slot(k) == prev.slot(k));
                        assert(prev.slot(k)->0.data@ == page_image(old(self).slot(k)->0.data@, data@, k));
                    } else {
                        assert(prev.slot(k) == old(self).slot(k));
                    }
                }
                assert forall|k: int| i + 1 <= k < self.end() - self.start() implies #[trigger] self.slot(k) == old(self).slot(k) by {
                    assert(self.slot(k) == prev.slot(k));
                    assert(prev.slot(k) == old(self).slot(k));
                }
                assert(self.data_frames@[i as int] is Some);
                assert forall|j: int| 0 <= j < self.data_frames@.len() && #[trigger] self.data_frames@[j] is Some
                    implies self.map_type == MapType::Framed && self.data_frames@[j]->0.wf() by {
                }
                assert forall|j: int| 0 <= j < self.data_frames@.len() implies #[trigger] self.data_frames@[j] is Some by {
                }
            }
            off = off + n;
            i = i + 1;
            proof {
                if off < len {
                    assert(n == PAGE_SIZE);
                    assert(off == i * PAGE_SIZE);
                    assert(i < self.end() - self.start()) by (nonlinear_arith)
                        requires
                            i * PAGE_SIZE < len,
                            len <= (self.end() - self.start()) * PAGE_SIZE,
                    ;
                } else {
                    assert(off <= i * PAGE_SIZE) by (nonlinear_arith)
                        requires off == (i - 1) * PAGE_SIZE + n, n <= PAGE_SIZE;
                }
            }
        }
        proof {
            assert forall|k: int| 0 <= k < self.end() - self.start() implies
                #[trigger] self.slot(k)->0.data@ == page_image(old(self).slot(k)->0.data@, data@, k) by {
                if k >= i {
                    assert(data@.len() <= k * PAGE_SIZE) by (nonlinear_arith)
                        requires data@.len() <= off, off <= i * PAGE_SIZE, k >= i;
                }
            }
        }
    }

    /// Gives back every frame the area holds, leaving the page table alone.
    pub fn release_frames(&mut self, allocator: &mut StackFrameAllocator)
        requires
            old(self).wf(),
            old(self).frames_distinct(),
            old(allocator).wf(),
            forall|p: u64| old(self).frames().contains(p) ==> old(allocator).in_use(p),
        ensures
            final(self).wf(),
            final(self).start() == old(self).start(),
            final(self).end() == old(self).end(),
            final(self).typ() == old(self).typ(),
            final(self).perm() == old(self).perm(),
            final(self).empty_slots(),
            final(allocator).wf(),
            forall|p: u64| final(allocator).in_use(p) <==> (old(allocator).in_use(p) && !old(self).frames().contains(p)),
    {
        let n = self.data_frames.len();
        let mut i: usize = 0;
        while i < n
            invariant
                self.wf(),
                self.start() == old(self).start(),
                self.end() == old(self).end(),
                self.typ() == old(self).typ(),
                self.perm() == old(self).perm(),
                n == self.data_frames@.len(),
                i <= n,
                old(self).wf(),
                old(self).frames_distinct(),
                forall|k: int| 0 <= k < i ==> #[trigger] self.slot(k) is None,
                forall|k: int| i <= k ==> #[trigger] self.slot(k) == old(self).slot(k),
                allocator.wf(),
                forall|p: u64| old(self).frames().contains(p) ==> old(allocator).in_use(p),
                forall|p: u64| allocator.in_use(p) <==> (old(allocator).in_use(p) && !old(self).frames_below(i as int).contains(p)),
            decreases n - i,
        {
            let ghost idx = i as int;
            let ghost prev = *self;
            let ghost prev_frames = self.data_frames@;
            let slot = self.data_frames.remove(i);
            self.data_frames.insert(i, None);
            proof {
                assert(self.data_frames@ =~= prev_frames.update(idx, None));
                assert(slot == prev.slot(idx));
                assert(prev.slot(idx) == old(self).slot(idx));
                assert forall|k: int| k != idx implies #[trigger] self.slot(k) == prev.slot(k) by {}
            }
            if let Some(frame) = slot {
                proof {
                    assert(old(self).slot_ppn(idx) == Some(frame.ppn.0));
                    assert(old(self).frames().contains(frame.ppn.0));
                    assert(!old(self).frames_below(idx).contains(frame.ppn.0)) by {
                        if old(self).frames_below(idx).contains(frame.ppn.0) {
                            let k = choose|k: int| 0 <= k < idx && #[trigger] old(self).slot_ppn(k) == Some(frame.ppn.0);
                        }
                    }
                }
                frame_dealloc(allocator, frame);
            }
            proof {
                assert forall|p: u64| old(self).frames_below(idx + 1).contains(p) <==>
                    (old(self).frames_below(idx).contains(p) || old(self).slot_ppn(idx) == Some(p)) by {
                    if old(self).frames_below(idx + 1).contains(p) {
                        let k = choose|k: int| 0 <= k < idx + 1 && #[trigger] old(self).slot_ppn(k) == Some(p);
                        if k < idx {
                            assert(old(self).frames_below(idx).contains(p));
                        }
                    }
                    if old(self).frames_below(idx).contains(p) {
                        let k = choose|k: int| 0 <= k < idx && #[trigger] old(self).slot_ppn(k) == Some(p);
                        assert(old(self).frames_below(idx + 1).contains(p));
                    }
                    if old(self).slot_ppn(idx) == Some(p) {
                        assert(old(self).frames_below(idx + 1).contains(p));
                    }
                }
            }
            i = i + 1;
        }
        proof {
            assert forall|p: u64| old(self).frames_below(n as int).contains(p) <==> old(self).frames().contains(p) by {
                if old(self).frames().contains(p) {
                    let k = choose|k: int| #[trigger] old(self).slot_ppn(k) == Some(p);
                }
            }
            assert forall|k: int| 0 <= k < self.data_frames@.len() implies #[trigger] self.data_frames@[k] is None by {
                assert(self.slot(k) is None);
            }
        }
    }

}

} // verus!

verus! {

/// Where the linker placed the kernel's sections, and the trampoline code.
#[derive(Copy, Clone, PartialEq, Eq, Debug, Structural)]
pub struct KernelLayout {
    pub stext: u64,
    pub etext: u64,
    pub srodata: u64,
    pub erodata: u64,
    pub sdata: u64,
    pub edata: u64,
    pub sbss_with_stack: u64,
    pub ebss: u64,
    pub ekernel: u64,
    pub strampoline: u64,
}

/// The areas of the kernel's address space: each section mapped onto
/// itself (text R|X, rodata R, data R|W, bss R|W), then the rest of
/// physical memory R|W.
pub open spec fn kernel_areas(layout: KernelLayout) -> Seq<AreaInfo> {
    seq![
        AreaInfo { start: floor_vpn(layout.stext as int) as u64, end: ceil_vpn(layout.etext as int) as u64,
            map_type: MapType::Identical, perm: MapPermission { bits: 10u8 } },
        AreaInfo { start: floor_vpn(layout.srodata as int) as u64, end: ceil_vpn(layout.erodata as int) as u64,
            map_type: MapType::Identical, perm: MapPermission { bits: 2u8 } },
        AreaInfo { start: floor_vpn(layout.sdata as int) as u64, end: ceil_vpn(layout.edata as int) as u64,
            map_type: MapType::Identical, perm: MapPermission { bits: 6u8 } },
        AreaInfo { start: floor_vpn(layout.sbss_with_stack as int) as u64, end: ceil_vpn(layout.ebss as int) as u64,
            map_type: MapType::Identical, perm: MapPermission { bits: 6u8 } },
        AreaInfo { start: floor_vpn(layout.ekernel as int) as u64, end: ceil_vpn(MEMORY_END as int) as u64,
            map_type: MapType::Identical, perm: MapPermission { bits: 6u8 } },
    ]
}

impl KernelLayout {
    /// The sections lie in the Sv39 space in this order, page ranges apart,
    /// below the end of physical memory; the trampoline code is page aligned.
    pub open spec fn valid(&self) -> bool {
        &&& self.ekernel < 0x80_0000_0000
        &&& floor_vpn(self.stext as int) <= ceil_vpn(self.etext as int)
        &&& ceil_vpn(self.etext as int) <= floor_vpn(self.srodata as int)
        &&& floor_vpn(self.srodata as int) <= ceil_vpn(self.erodata as int)
        &&& ceil_vpn(self.erodata as int) <= floor_vpn(self.sdata as int)
        &&& floor_vpn(self.sdata as int) <= ceil_vpn(self.edata as int)
        &&& ceil_vpn(self.edata as int) <= floor_vpn(self.sbss_with_stack as int)
        &&& floor_vpn(self.sbss_with_stack as int) <= ceil_vpn(self.ebss as int)
        &&& ceil_vpn(self.ebss as int) <= floor_vpn(self.ekernel as int)
        &&& self.ekernel <= MEMORY_END
        &&& self.stext <= self.etext <= self.srodata <= self.erodata <= self.sdata
        &&& self.sdata <= self.edata <= self.sbss_with_stack <= self.ebss <= self.ekernel
        &&& self.strampoline % (PAGE_SIZE as u64) == 0
    }

    /// Whether the kernel's address space can be built from this layout.
    pub fn is_valid(&self) -> (r: bool)
        ensures
            r == self.valid(),
    {
        if self.ekernel >= 0x80_0000_0000 || self.ekernel > MEMORY_END as u64 {
            return false;
        }
        if !(self.stext <= self.etext && self.etext <= self.srodata && self.srodata <= self.erodata
            && self.erodata <= self.sdata && self.sdata <= self.edata && self.edata <= self.sbss_with_stack
            && self.sbss_with_stack <= self.ebss && self.ebss <= self.ekernel) {
            return false;
        }
        let p: u64 = PAGE_SIZE as u64;
        let ceil_etext = (self.etext + p - 1) / p;
        let ceil_erodata = (self.erodata + p - 1) / p;
        let ceil_edata = (self.edata + p - 1) / p;
        let ceil_ebss = (self.ebss + p - 1) / p;
        self.stext / p <= ceil_etext && ceil_etext <= self.srodata / p
            && self.srodata / p <= ceil_erodata && ceil_erodata <= self.sdata / p
            && self.sdata / p <= ceil_edata && ceil_edata <= self.sbss_with_stack / p
            && self.sbss_with_stack / p <= ceil_ebss && ceil_ebss <= self.ekernel / p
            && self.strampoline % p == 0
    }
}

/// What an area is, apart from the frames it holds.
#[derive(Copy, Clone, PartialEq, Eq, Debug, Structural)]
pub struct AreaInfo {
    pub start: u64,
    pub end: u64,
    pub map_type: MapType,
    pub perm: MapPermission,
}

impl MapArea {
    pub closed spec fn info(&self) -> AreaInfo {
        AreaInfo {
            start: self.vpn_range.start.0,
            end: self.vpn_range.end.0,
            map_type: self.map_type,
            perm: self.map_perm,
        }
    }

    proof fn lemma_info(&self)
        ensures
            self.info().start == self.start(),
            self.info().end == self.end(),
            self.info().map_type == self.typ(),
            self.info().perm == self.perm(),
    {
    }

    /// What the area is, apart from its frames.
    pub fn get_info(&self) -> (r: AreaInfo)
        ensures
            r == self.info(),
    {
        AreaInfo {
            start: self.vpn_range.start.0,
            end: self.vpn_range.end.0,
            map_type: self.map_type,
            perm: self.map_perm,
        }
    }
}

/// The page of the trap trampoline, the top page of the Sv39 space.
pub const TRAMPOLINE_VPN: u64 = 0x7ff_ffff;
/// The page of a task's trap context, just below the trampoline.
pub const TRAP_CONTEXT_VPN: u64 = 0x7ff_fffe;

/// Whether the page ranges `[s1, e1)` and `[s2, e2)` share a page.
pub open spec fn ranges_meet(s1: int, e1: int, s2: int, e2: int) -> bool {
    s1 < e2 && s2 < e1
}

/// Whether the page ranges `[s1, e1)` and `[s2, e2)` have a page in common.
pub open spec fn pages_meet(s1: int, e1: int, s2: int, e2: int) -> bool {
    s1 < e1 && s2 < e2 && s1 < e2 && s2 < e1
}

/// An address space: a page table and the areas mapped in it. The trampoline
/// page is mapped in the table but belongs to no area.
pub struct MemorySet {
    page_table: PageTable,
    areas: Vec<MapArea>,
}

impl MemorySet {
    pub closed spec fn pt(&self) -> Map<u64, PageTableEntry> {
        self.page_table@
    }

    pub closed spec fn root(&self) -> u64 {
        self.page_table.root()
    }

    pub closed spec fn area(&self, k: int) -> MapArea {
        self.areas@[k]
    }

    pub closed spec fn area_count(&self) -> int {
        self.areas@.len() as int
    }

    /// The areas, in the order they were added.
    pub closed spec fn infos(&self) -> Seq<AreaInfo> {
        self.areas@.map_values(|a: MapArea| a.info())
    }

    /// Whether some area holds page `v`.
    pub open spec fn in_some_area(&self, v: int) -> bool {
        exists|k: int| 0 <= k < self.infos().len() && #[trigger] self.infos()[k].start <= v < self.infos()[k].end
    }

    /// Whether frame `p` is held by area `k`.
    pub closed spec fn area_holds(&self, k: int, p: u64) -> bool {
        0 <= k < self.areas@.len() && self.areas@[k].frames().contains(p)
    }

    /// The frames the address space holds: its root table and its areas' frames.
    pub closed spec fn frames(&self) -> Set<u64> {
        Set::new(|p: u64| p == self.root() || exists|k: int| #[trigger] self.area_holds(k, p))
    }

    /// Every frame the address space holds is in use in `allocator`.
    pub open spec fn frames_in_use(&self, allocator: &StackFrameAllocator) -> bool {
        forall|p: u64| #[trigger] self.frames().contains(p) ==> allocator.in_use(p)
    }

    /// Area `a` is well formed, holds a frame for each framed page, holds no
    /// frame twice nor the root table, stays off the trampoline, and each of
    /// its pages is mapped as the area says.
    pub closed spec fn area_fits(&self, a: MapArea) -> bool {
        &&& a.wf()
        &&& a.full_slots()
        &&& a.frames_distinct()
        &&& !a.frames().contains(self.root())
        &&& !(a.start() <= TRAMPOLINE_VPN < a.end())
        &&& forall|v: u64| a.start() <= v < a.end() ==> #[trigger] self.page_table@.contains_key(v)
            && self.page_table@[v] == a.leaf(v)
    }

    pub closed spec fn wf(&self) -> bool {
        &&& self.page_table.wf()
        &&& forall|k: int| 0 <= k < self.areas@.len() ==> self.area_fits(#[trigger] self.areas@[k])
        &&& forall|k: int, l: int| 0 <= k < l < self.areas@.len() ==>
            !pages_meet((#[trigger] self.areas@[k]).start(), self.areas@[k].end(),
                (#[trigger] self.areas@[l]).start(), self.areas@[l].end())
        &&& forall|k: int, l: int, p: u64| k != l && #[trigger] self.area_holds(k, p) ==> !#[trigger] self.area_holds(l, p)
        &&& forall|v: u64| #[trigger] self.page_table@.contains_key(v) ==> v == TRAMPOLINE_VPN || exists|k: int|
            0 <= k < self.areas@.len() && #[trigger] self.areas@[k].start() <= v < self.areas@[k].end()
    }

    /// An address space with no mappings, whose root table frame comes from
    /// `allocator`.
    pub fn new_bare(allocator: &mut StackFrameAllocator) -> (r: MemorySet)
        requires
            old(allocator).wf(),
            old(allocator).free_count() > 0,
        ensures
            r.wf(),
            r.infos() == Seq::<AreaInfo>::empty(),
            r.pt() == Map::<u64, PageTableEntry>::empty(),
            r.frames() == set![r.root()],
            Some(r.root()) == old(allocator).next_frame(),
            !old(allocator).in_use(r.root()),
            final(allocator).wf(),
            r.frames_in_use(final(allocator)),
            final(allocator).free_count() + 1 == old(allocator).free_count(),
            forall|p: u64| p != r.root() ==> (final(allocator).in_use(p) <==> old(allocator).in_use(p)),
    {
        let page_table = PageTable::new(allocator);
        let r = MemorySet { page_table, areas: Vec::new() };
        proof {
            assert(r.infos() =~= Seq::<AreaInfo>::empty());
            assert(r.frames() =~= set![r.root()]);
        }
        r
    }

    /// The satp token of the address space.
    pub fn token(&self) -> (r: u64)
        ensures
            r == crate::memory::page_table::token_of(self.root()),
    {
        self.page_table.token()
    }

    /// The mapped pages, each once.
    pub fn mapped_pages(&self) -> (r: Vec<u64>)
        requires
            self.wf(),
        ensures
            r@.no_duplicates(),
            forall|v: u64| #[trigger] r@.contains(v) <==> self.pt().contains_key(v),
    {
        self.page_table.mapped_pages()
    }

    /// The hardware page table of the address space: the frames of an Sv39
    /// table whose walk from the root frame gives exactly its mappings; the
    /// frames below the root come from `allocator`. `None`, with the allocator
    /// untouched, when a mapping does not fit the hardware form or too few
    /// frames are free.
    pub fn sv39_tables(&self, allocator: &mut StackFrameAllocator) -> (r: Option<Vec<TableFrame>>)
        requires
            self.wf(),
            old(allocator).wf(),
            old(allocator).in_use(self.root()),
            forall|p: u64| old(allocator).is_free(p) ==> p < SV39_PPN_LIMIT,
        ensures
            final(allocator).wf(),
            r is Some <==> (sv39_encodable(self.pt()) && old(allocator).free_count() >= sv39_frames_needed(self.pt())),
            r is None ==> *final(allocator) == *old(allocator),
            r matches Some(t) ==> {
                &&& t@.len() == 1 + sv39_frames_needed(self.pt())
                &&& t@[0].ppn == self.root()
                &&& forall|k: int| 0 <= k < t@.len() ==> #[trigger] t@[k].ptes@.len() == TABLE_ENTRIES
                &&& forall|a: int, b: int| 0 <= a < b < t@.len() ==> t@[a].ppn != t@[b].ppn
                &&& forall|k: int| 1 <= k < t@.len() ==> !old(allocator).in_use(#[trigger] t@[k].ppn)
                &&& forall|p: u64| final(allocator).in_use(p) <==> (old(allocator).in_use(p)
                    || exists|k: int| 1 <= k < t@.len() && #[trigger] t@[k].ppn == p)
                &&& final(allocator).free_count() + sv39_frames_needed(self.pt()) == old(allocator).free_count()
                &&& forall|vpn: u64| vpn < SV39_VPN_LIMIT ==> #[trigger] sv39_walk(t@, self.root(), vpn)
                    == (if self.pt().contains_key(vpn) { Some(self.pt()[vpn]) } else { None::<PageTableEntry> })
            },
    {
        self.page_table.sv39_tables(allocator)
    }

    /// The leaf entry of page `vpn`, if it is mapped.
    pub fn translate(&self, vpn: VirtPageNum) -> (r: Option<PageTableEntry>)
        requires
            self.wf(),
        ensures
            r == (if self.pt().contains_key(vpn.0) { Some(self.pt()[vpn.0]) } else { None::<PageTableEntry> }),
    {
        self.page_table.translate(vpn)
    }

    /// Whether some area shares a page with `[start_vpn, end_vpn)`.
    pub fn contains_vpn(&self, start_vpn: VirtPageNum, end_vpn: VirtPageNum) -> (r: bool)
        ensures
            r == exists|k: int| 0 <= k < self.infos().len()
                && #[trigger] ranges_meet(start_vpn.0 as int, end_vpn.0 as int, self.infos()[k].start as int, self.infos()[k].end as int),
    {
        let mut contains: i32 = 0;
        let mut k: usize = 0;
        while k < self.areas.len()
            invariant
                k <= self.areas@.len(),
                contains == 0 || contains == 1,
                (contains == 1) == exists|j: int| 0 <= j < k
                    && #[trigger] ranges_meet(start_vpn.0 as int, end_vpn.0 as int, self.infos()[j].start as int, self.infos()[j].end as int),
            decreases self.areas@.len() - k,
        {
            let c = self.areas[k].contains(start_vpn, end_vpn);
            proof {
                self.areas@[k as int].lemma_info();
                assert(self.infos()[k as int] == self.areas@[k as int].info());
                if c == 1 {
                    assert(ranges_meet(start_vpn.0 as int, end_vpn.0 as int, self.infos()[k as int].start as int, self.infos()[k as int].end as int));
                }
            }
            let old_contains = contains;
            contains = contains | c;
            proof {
                assert((contains == 0 || contains == 1) && (contains == 1 <==> (old_contains == 1 || c == 1))) by (bit_vector)
                    requires
                        (old_contains == 0i32 || old_contains == 1i32) && (c == 0i32 || c == 1i32) && contains == old_contains | c;
            }
            k = k + 1;
        }
        contains != 0
    }

    /// The content of page `i` of an area right after it is added with
    /// `data`.
    pub open spec fn initial_page(data: Option<Seq<u8>>, i: int) -> Seq<u8> {
        match data {
            Some(d) => page_image(zero_page(), d, i),
            None => zero_page(),
        }
    }

    /// Maps `map_area` and adds it; a framed area gets fresh zeroed frames,
    /// into which `data` is then copied from the start of the area.
    #[verifier::spinoff_prover]
    #[verifier::rlimit(40)]
    fn push(&mut self, map_area: MapArea, data: Option<&[u8]>, allocator: &mut StackFrameAllocator)
        requires
            old(self).wf(),
            old(allocator).wf(),
            old(self).frames_in_use(old(allocator)),
            map_area.wf(),
            map_area.empty_slots(),
            forall|v: u64| map_area.start() <= v < map_area.end() ==> !old(self).pt().contains_key(v),
            !(map_area.start() <= TRAMPOLINE_VPN < map_area.end()),
            map_area.typ() == MapType::Framed ==> old(allocator).free_count() >= map_area.end() - map_area.start(),
            data matches Some(d) ==> map_area.typ() == MapType::Framed
                && d@.len() <= (map_area.end() - map_area.start()) * PAGE_SIZE,
        ensures
            final(self).wf(),
            final(allocator).wf(),
            final(self).frames_in_use(final(allocator)),
            final(self).root() == old(self).root(),
            final(self).infos() == old(self).infos().push(map_area.info()),
            final(self).area_count() == old(self).area_count() + 1,
            forall|k: int| 0 <= k < old(self).area_count() ==> #[trigger] final(self).area(k) == old(self).area(k),
            final(self).pt() == old(self).pt().union_prefer_right(final(self).area(old(self).area_count()).mapping()),
            ({
                let a = final(self).area(old(self).area_count());
                &&& a.start() == map_area.start()
                &&& a.end() == map_area.end()
                &&& a.typ() == map_area.typ()
                &&& a.perm() == map_area.perm()
                &&& forall|i: int| #[trigger] a.slot(i) matches Some(f) ==> f.data@ == Self::initial_page(
                    match data { Some(d) => Some(d@), None => None }, i)
                &&& forall|p: u64| final(allocator).in_use(p) <==> (old(allocator).in_use(p) || a.frames().contains(p))
                &&& forall|p: u64| a.frames().contains(p) ==> !old(allocator).in_use(p)
                &&& forall|p: u64| #[trigger] final(self).frames().contains(p) <==> (old(self).frames().contains(p) || a.frames().contains(p))
            }),
            map_area.typ() == MapType::Framed ==> final(allocator).free_count() == old(allocator).free_count() - (map_area.end() - map_area.start()),
            map_area.typ() == MapType::Identical ==> final(allocator).free_count() == old(allocator).free_count(),
    {
        let mut map_area = map_area;
        let ghost old_pt = self.page_table@;
        assert forall|v: u64| map_area.start() <= v < map_area.end() implies !self.page_table@.contains_key(v) by {
            assert(!old(self).pt().contains_key(v));
        }
        map_area.map(&mut self.page_table, allocator);
        let ghost mapped = map_area;
        if let Some(d) = data {
            map_area.copy_data(d);
        }
        let ghost a = map_area;
        proof {
            assert forall|i: int| #[trigger] a.slot_ppn(i) == mapped.slot_ppn(i) by {
                if data is Some {
                } else {
                    assert(a == mapped);
                }
            }
            assert forall|v: u64| #[trigger] a.mapping().contains_key(v) implies a.mapping()[v] == mapped.mapping()[v] by {
                assert(a.slot_ppn(v - a.start()) == mapped.slot_ppn(v - a.start()));
                if a.typ() == MapType::Framed {
                    assert(mapped.data_frames@[v - a.start()] is Some);
                    assert(a.data_frames@[v - a.start()] is Some);
                }
            }
            assert(a.mapping() =~= mapped.mapping());
            assert forall|p: u64| a.frames().contains(p) <==> mapped.frames().contains(p) by {
                if a.frames().contains(p) {
                    let i = choose|i: int| #[trigger] a.slot_ppn(i) == Some(p);
                    assert(mapped.slot_ppn(i) == Some(p));
                }
                if mapped.frames().contains(p) {
                    let i = choose|i: int| #[trigger] mapped.slot_ppn(i) == Some(p);
                    assert(a.slot_ppn(i) == Some(p));
                }
            }
            assert(a.frames() =~= mapped.frames());
            assert forall|i: int, j: int|
                #![trigger a.slot_ppn(i), a.slot_ppn(j)]
                a.slot_ppn(i) is Some && a.slot_ppn(i) == a.slot_ppn(j) implies i == j by {
                assert(mapped.slot_ppn(i) == a.slot_ppn(i));
                assert(mapped.slot_ppn(j) == a.slot_ppn(j));
            }
        }
        let ghost n = self.areas@.len() as int;
        proof {
            // the new frames are neither the root nor held by another area
            assert(old(self).frames().contains(old(self).root()));
            assert(!a.frames().contains(self.root()));
            assert forall|k: int, p: u64| 0 <= k < n && old(self).area_holds(k, p) implies !a.frames().contains(p) by {
                assert(old(self).frames().contains(p));
            }
            // the new pages were not mapped, so they meet no earlier area
            assert forall|k: int| 0 <= k < n implies !pages_meet(old(self).areas@[k].start(), old(self).areas@[k].end(),
                a.start(), a.end()) by {
                let b = old(self).areas@[k];
                if pages_meet(b.start(), b.end(), a.start(), a.end()) {
                    let v: u64 = if b.start() < a.start() { a.start() as u64 } else { b.start() as u64 };
                    assert(b.start() <= v < b.end());
                    assert(old(self).page_table@.contains_key(v));
                    assert(a.start() <= v < a.end());
                }
            }
        }
        self.areas.push(map_area);
        proof {
            assert(self.areas@[n] == a);
            assert forall|k: int| 0 <= k < n implies #[trigger] self.areas@[k] == old(self).areas@[k] by {}
            assert forall|k: int| 0 <= k < self.areas@.len() implies self.area_fits(#[trigger] self.areas@[k]) by {
                let b = self.areas@[k];
                if k < n {
                    assert(b == old(self).areas@[k]);
                    assert(b.wf());
                    assert(b.full_slots());
                    assert(b.frames_distinct());
                    assert(!b.frames().contains(self.root()));
                    assert(!(b.start() <= TRAMPOLINE_VPN < b.end()));
                    assert forall|v: u64| b.start() <= v < b.end() implies #[trigger] self.page_table@.contains_key(v)
                        && self.page_table@[v] == b.leaf(v) by {
                        assert(old_pt.contains_key(v));
                        assert(!(a.start() <= v < a.end()));
                    }
                } else {
                    assert(b == a);
                    assert(b.wf());
                    assert(b.full_slots());
                    assert(b.frames_distinct());
                    assert(!b.frames().contains(self.root()));
                    assert(!(b.start() <= TRAMPOLINE_VPN < b.end()));
                    assert forall|v: u64| b.start() <= v < b.end() implies #[trigger] self.page_table@.contains_key(v)
                        && self.page_table@[v] == b.leaf(v) by {
                        assert(a.mapping().contains_key(v));
                    }
                }
            }
            assert forall|k: int, l: int| 0 <= k < l < self.areas@.len() implies
                !pages_meet((#[trigger] self.areas@[k]).start(), self.areas@[k].end(),
                    (#[trigger] self.areas@[l]).start(), self.areas@[l].end()) by {
                if l < n {
                    assert(self.areas@[k] == old(self).areas@[k]);
                    assert(self.areas@[l] == old(self).areas@[l]);
                }
            }
            assert forall|k: int, l: int, p: u64| k != l && #[trigger] self.area_holds(k, p) implies !#[trigger] self.area_holds(l, p) by {
                if k < n && l < n {
                    assert(old(self).area_holds(k, p));
                    if self.area_holds(l, p) {
                        assert(old(self).area_holds(l, p));
                    }
                } else if k == n {
                    if self.area_holds(l, p) {
                        assert(old(self).area_holds(l, p));
                    }
                } else {
                    assert(old(self).area_holds(k, p));
                }
            }
            assert forall|v: u64| #[trigger] self.page_table@.contains_key(v) implies v == TRAMPOLINE_VPN || exists|k: int|
                0 <= k < self.areas@.len() && #[trigger] self.areas@[k].start() <= v < self.areas@[k].end() by {
                if old_pt.contains_key(v) {
                    if v != TRAMPOLINE_VPN {
                        let k = choose|k: int| 0 <= k < n && #[trigger] old(self).areas@[k].start() <= v < old(self).areas@[k].end();
                        assert(self.areas@[k] == old(self).areas@[k]);
                    }
                } else {
                    assert(self.areas@[n].start() <= v < self.areas@[n].end());
                }
            }
            assert(self.infos() =~= old(self).infos().push(map_area.info()));
            assert forall|p: u64| #[trigger] self.frames().contains(p) <==> (old(self).frames().contains(p) || a.frames().contains(p)) by {
                if self.frames().contains(p) && p != self.root() {
                    let k = choose|k: int| #[trigger] self.area_holds(k, p);
                    if k < n {
                        assert(old(self).area_holds(k, p));
                    }
                }
                if old(self).frames().contains(p) && p != self.root() {
                    let k = choose|k: int| #[trigger] old(self).area_holds(k, p);
                    assert(self.area_holds(k, p));
                }
                if a.frames().contains(p) {
                    assert(self.area_holds(n, p));
                }
            }
        }
    }

    /// Adds a framed area over `[start_va, end_va)` with rights `permission`.
    pub fn insert_framed_area(&mut self, start_va: VirtAddr, end_va: VirtAddr, permission: MapPermission,
        allocator: &mut StackFrameAllocator)
        requires
            old(self).wf(),
            old(allocator).wf(),
            old(self).frames_in_use(old(allocator)),
            end_va.0 < 0x80_0000_0000,
            floor_vpn(start_va.0 as int) <= ceil_vpn(end_va.0 as int),
            forall|v: u64| floor_vpn(start_va.0 as int) <= v < ceil_vpn(end_va.0 as int) ==> !old(self).pt().contains_key(v),
            !(floor_vpn(start_va.0 as int) <= TRAMPOLINE_VPN < ceil_vpn(end_va.0 as int)),
            old(allocator).free_count() >= ceil_vpn(end_va.0 as int) - floor_vpn(start_va.0 as int),
        ensures
            final(self).wf(),
            final(allocator).wf(),
            final(self).frames_in_use(final(allocator)),
            final(self).root() == old(self).root(),
            final(self).infos() == old(self).infos().push(AreaInfo {
                start: floor_vpn(start_va.0 as int) as u64,
                end: ceil_vpn(end_va.0 as int) as u64,
                map_type: MapType::Framed,
                perm: permission,
            }),
            forall|k: int| 0 <= k < old(self).area_count() ==> #[trigger] final(self).area(k) == old(self).area(k),
            final(self).pt() == old(self).pt().union_prefer_right(final(self).area(old(self).area_count()).mapping()),
            forall|k: int, i: int| 0 <= k < old(self).infos().len() ==> #[trigger] final(self).page_data(k, i) == old(self).page_data(k, i),
            forall|i: int| #[trigger] final(self).page_data(old(self).infos().len() as int, i) matches Some(b) ==> b == zero_page(),
            ({
                let a = final(self).area(old(self).area_count());
                &&& forall|i: int| #[trigger] a.slot(i) matches Some(f) ==> f.data@ == zero_page()
                &&& forall|p: u64| final(allocator).in_use(p) <==> (old(allocator).in_use(p) || a.frames().contains(p))
                &&& forall|p: u64| a.frames().contains(p) ==> !old(allocator).in_use(p)
            }),
            final(allocator).free_count() == old(allocator).free_count() - (ceil_vpn(end_va.0 as int) - floor_vpn(start_va.0 as int)),
    {
        let area = MapArea::new(start_va, end_va, MapType::Framed, permission);
        proof { area.lemma_info(); }
        self.push(area, None, allocator);
        proof {
            let n = old(self).infos().len() as int;
            assert forall|k: int, i: int| 0 <= k < n implies #[trigger] self.page_data(k, i) == old(self).page_data(k, i) by {
                assert(self.area(k) == old(self).area(k));
            }
            assert forall|i: int| #[trigger] self.page_data(n, i) is Some implies self.page_data(n, i)->0 == zero_page() by {
                assert(self.area(n).slot(i) is Some);
            }
        }
    }

    proof fn lemma_area_frames_in_use(&self, allocator: &StackFrameAllocator, k: int)
        requires
            self.frames_in_use(allocator),
            0 <= k < self.areas@.len(),
        ensures
            forall|p: u64| self.areas@[k].frames().contains(p) ==> allocator.in_use(p),
    {
        assert forall|p: u64| self.areas@[k].frames().contains(p) implies allocator.in_use(p) by {
            assert(self.area_holds(k, p));
            assert(self.frames().contains(p));
        }
    }

    /// Unmaps area `idx`, gives back its frames and drops it.
    fn take_area(&mut self, idx: usize, allocator: &mut StackFrameAllocator)
        requires
            old(self).wf(),
            old(allocator).wf(),
            old(self).frames_in_use(old(allocator)),
            idx < old(self).area_count(),
        ensures
            final(self).wf(),
            final(allocator).wf(),
            final(self).frames_in_use(final(allocator)),
            final(self).root() == old(self).root(),
            final(self).infos() == old(self).infos().remove(idx as int),
            final(self).area_count() == old(self).area_count() - 1,
            final(self).pt() == old(self).pt().remove_keys(old(self).area(idx as int).pages()),
            forall|p: u64| final(allocator).in_use(p) <==> (old(allocator).in_use(p) && !old(self).area(idx as int).frames().contains(p)),
            forall|p: u64| #[trigger] final(self).frames().contains(p) <==> (old(self).frames().contains(p) && !old(self).area(idx as int).frames().contains(p)),
            forall|k: int| 0 <= k < idx ==> #[trigger] final(self).area(k) == old(self).area(k),
            forall|k: int| idx <= k < final(self).area_count() ==> #[trigger] final(self).area(k) == old(self).area(k + 1),
    {
        proof { self.lemma_area_frames_in_use(allocator, idx as int); }
        let ghost b = self.areas@[idx as int];
        let ghost old_pt = self.page_table@;
        let mut area = self.areas.remove(idx);
        assert(old(self).area_fits(b));
        area.unmap(&mut self.page_table, allocator);
        proof {
            let n = self.areas@.len();
            assert forall|k: int| 0 <= k < n implies #[trigger] self.areas@[k] == old(self).areas@[if k < idx { k } else { k + 1 }] by {}
            assert forall|k: int| 0 <= k < n implies self.area_fits(#[trigger] self.areas@[k]) by {
                let k2 = if k < idx { k } else { k + 1 };
                let c = old(self).areas@[k2];
                assert(old(self).area_fits(c));
                assert(!pages_meet(c.start(), c.end(), b.start(), b.end()) && !pages_meet(b.start(), b.end(), c.start(), c.end())) by {
                    if k2 < idx {
                        assert(!pages_meet(old(self).areas@[k2].start(), old(self).areas@[k2].end(),
                            old(self).areas@[idx as int].start(), old(self).areas@[idx as int].end()));
                    } else {
                        assert(!pages_meet(old(self).areas@[idx as int].start(), old(self).areas@[idx as int].end(),
                            old(self).areas@[k2].start(), old(self).areas@[k2].end()));
                    }
                }
                assert forall|v: u64| c.start() <= v < c.end() implies #[trigger] self.page_table@.contains_key(v)
                    && self.page_table@[v] == c.leaf(v) by {
                    assert(old_pt.contains_key(v));
                    assert(!b.pages().contains(v));
                }
            }
            assert forall|k: int, l: int| 0 <= k < l < n implies
                !pages_meet((#[trigger] self.areas@[k]).start(), self.areas@[k].end(),
                    (#[trigger] self.areas@[l]).start(), self.areas@[l].end()) by {
                let k2 = if k < idx { k } else { k + 1 };
                let l2 = if l < idx { l } else { l + 1 };
                assert(old(self).areas@[k2] == self.areas@[k]);
                assert(old(self).areas@[l2] == self.areas@[l]);
            }
            assert forall|k: int, l: int, p: u64| k != l && #[trigger] self.area_holds(k, p) implies !#[trigger] self.area_holds(l, p) by {
                let k2 = if k < idx { k } else { k + 1 };
                let l2 = if l < idx { l } else { l + 1 };
                assert(old(self).area_holds(k2, p));
                if self.area_holds(l, p) {
                    assert(old(self).area_holds(l2, p));
                }
            }
            assert forall|v: u64| #[trigger] self.page_table@.contains_key(v) implies v == TRAMPOLINE_VPN || exists|k: int|
                0 <= k < self.areas@.len() && #[trigger] self.areas@[k].start() <= v < self.areas@[k].end() by {
                assert(old_pt.contains_key(v));
                if v != TRAMPOLINE_VPN {
                    let k = choose|k: int| 0 <= k < old(self).areas@.len() && #[trigger] old(self).areas@[k].start() <= v < old(self).areas@[k].end();
                    assert(k != idx);
                    let k1 = if k < idx { k } else { k - 1 };
                    assert(self.areas@[k1] == old(self).areas@[k]);
                }
            }
            assert(self.infos() =~= old(self).infos().remove(idx as int));
            assert forall|p: u64| #[trigger] self.frames().contains(p) <==> (old(self).frames().contains(p) && !b.frames().contains(p)) by {
                if self.frames().contains(p) && p != self.root() {
                    let k = choose|k: int| #[trigger] self.area_holds(k, p);
                    let k2 = if k < idx { k } else { k + 1 };
                    assert(old(self).area_holds(k2, p));
                    assert(old(self).frames().contains(p));
                    if b.frames().contains(p) {
                        assert(old(self).area_holds(idx as int, p));
                    }
                }
                if p == self.root() {
                    assert(old(self).area_fits(b));
                }
                if old(self).frames().contains(p) && !b.frames().contains(p) && p != self.root() {
                    let k = choose|k: int| #[trigger] old(self).area_holds(k, p);
                    assert(k != idx);
                    let k1 = if k < idx { k } else { k - 1 };
                    assert(self.area_holds(k1, p));
                }
            }
        }
    }

    /// Unmaps and drops the first area that starts at page `start_vpn`, if any.
    pub fn remove_area_with_start_vpn(&mut self, start_vpn: VirtPageNum, allocator: &mut StackFrameAllocator)
        requires
            old(self).wf(),
            old(allocator).wf(),
            old(self).frames_in_use(old(allocator)),
        ensures
            final(self).wf(),
            final(allocator).wf(),
            final(self).frames_in_use(final(allocator)),
            final(self).root() == old(self).root(),
            (forall|k: int| 0 <= k < old(self).infos().len() ==> #[trigger] old(self).infos()[k].start != start_vpn.0) ==> {
                &&& final(self).infos() == old(self).infos()
                &&& final(self).pt() == old(self).pt()
                &&& forall|p: u64| final(allocator).in_use(p) <==> old(allocator).in_use(p)
            },
            forall|k: int| 0 <= k < old(self).infos().len() && #[trigger] old(self).infos()[k].start == start_vpn.0
                && (forall|j: int| 0 <= j < k ==> #[trigger] old(self).infos()[j].start != start_vpn.0) ==> {
                &&& final(self).infos() == old(self).infos().remove(k)
                &&& final(self).pt() == old(self).pt().remove_keys(old(self).area(k).pages())
                &&& forall|p: u64| final(allocator).in_use(p) <==> (old(allocator).in_use(p) && !old(self).area(k).frames().contains(p))
            },
    {
        let mut idx: usize = 0;
        while idx < self.areas.len() && self.areas[idx].vpn_range.get_start().0 != start_vpn.0
            invariant
                idx <= self.areas@.len(),
                forall|j: int| 0 <= j < idx ==> #[trigger] self.infos()[j].start != start_vpn.0,
            decreases self.areas@.len() - idx,
        {
            proof { self.areas@[idx as int].lemma_info(); }
            idx = idx + 1;
        }
        if idx < self.areas.len() {
            proof {
                self.areas@[idx as int].lemma_info();
                assert(self.infos()[idx as int].start == start_vpn.0);
                assert forall|k: int| 0 <= k < old(self).infos().len() && #[trigger] old(self).infos()[k].start == start_vpn.0
                    && (forall|j: int| 0 <= j < k ==> #[trigger] old(self).infos()[j].start != start_vpn.0) implies k == idx by {
                    if k < idx {
                    } else if k > idx {
                        assert(old(self).infos()[idx as int].start != start_vpn.0);
                    }
                }
            }
            self.take_area(idx, allocator);
        }
    }

    /// Unmaps and drops the first area that covers exactly the pages
    /// `[start_vpn, end_vpn)`, answering its number of pages; `None` when
    /// there is no such area.
    pub fn remove_framed_area(&mut self, start_vpn: VirtPageNum, end_vpn: VirtPageNum, allocator: &mut StackFrameAllocator)
        -> (r: Option<isize>)
        requires
            old(self).wf(),
            old(allocator).wf(),
            old(self).frames_in_use(old(allocator)),
        ensures
            final(self).wf(),
            final(allocator).wf(),
            final(self).frames_in_use(final(allocator)),
            final(self).root() == old(self).root(),
            r is None <==> forall|k: int| 0 <= k < old(self).infos().len() ==>
                !(#[trigger] old(self).infos()[k].start == start_vpn.0 && old(self).infos()[k].end == end_vpn.0),
            r is None ==> {
                &&& final(self).infos() == old(self).infos()
                &&& final(self).pt() == old(self).pt()
                &&& forall|p: u64| final(allocator).in_use(p) <==> old(allocator).in_use(p)
            },
            r matches Some(n) ==> n == end_vpn.0 - start_vpn.0 && start_vpn.0 <= end_vpn.0,
            r is Some ==> final(self).infos().len() == old(self).infos().len() - 1,
            forall|k: int| 0 <= k < old(self).infos().len()
                && #[trigger] old(self).infos()[k].start == start_vpn.0 && old(self).infos()[k].end == end_vpn.0
                && (forall|j: int| 0 <= j < k ==> !(#[trigger] old(self).infos()[j].start == start_vpn.0
                    && old(self).infos()[j].end == end_vpn.0)) ==> {
                &&& final(self).infos() == old(self).infos().remove(k)
                &&& final(self).pt() == old(self).pt().remove_keys(old(self).area(k).pages())
                &&& forall|p: u64| final(allocator).in_use(p) <==> (old(allocator).in_use(p) && !old(self).area(k).frames().contains(p))
            },
    {
        let mut idx: usize = 0;
        while idx < self.areas.len()
            && !(self.areas[idx].vpn_range.get_start().0 == start_vpn.0 && self.areas[idx].vpn_range.get_end().0 == end_vpn.0)
            invariant
                idx <= self.areas@.len(),
                forall|j: int| 0 <= j < idx ==> !(#[trigger] self.infos()[j].start == start_vpn.0 && self.infos()[j].end == end_vpn.0),
            decreases self.areas@.len() - idx,
        {
            proof { self.areas@[idx as int].lemma_info(); }
            idx = idx + 1;
        }
        if idx < self.areas.len() {
            proof {
                self.areas@[idx as int].lemma_info();
                assert(self.infos()[idx as int].start == start_vpn.0 && self.infos()[idx as int].end == end_vpn.0);
                assert(self.area_fits(self.areas@[idx as int]));
                assert forall|k: int| 0 <= k < old(self).infos().len()
                    && #[trigger] old(self).infos()[k].start == start_vpn.0 && old(self).infos()[k].end == end_vpn.0
                    && (forall|j: int| 0 <= j < k ==> !(#[trigger] old(self).infos()[j].start == start_vpn.0
                        && old(self).infos()[j].end == end_vpn.0)) implies k == idx by {
                    if k > idx {
                        assert(old(self).infos()[idx as int].start == start_vpn.0);
                    }
                }
            }
            self.take_area(idx, allocator);
            Some((end_vpn.0 - start_vpn.0) as isize)
        } else {
            None
        }
    }

    /// Maps the trampoline page to the frame at physical address `strampoline`,
    /// readable and executable; the page belongs to no area.
    pub fn map_trampoline(&mut self, strampoline: u64)
        requires
            old(self).wf(),
            !old(self).pt().contains_key(TRAMPOLINE_VPN),
            strampoline % (PAGE_SIZE as u64) == 0,
        ensures
            final(self).wf(),
            final(self).root() == old(self).root(),
            final(self).infos() == old(self).infos(),
            final(self).area_count() == old(self).area_count(),
            forall|k: int| 0 <= k < old(self).area_count() ==> #[trigger] final(self).area(k) == old(self).area(k),
            final(self).frames() == old(self).frames(),
            final(self).pt() == old(self).pt().insert(TRAMPOLINE_VPN, PageTableEntry {
                ppn: PhysPageNum(strampoline / (PAGE_SIZE as u64)),
                flags: 11u8,
            }),
    {
        let ppn = PhysPageNum(strampoline / PAGE_SIZE as u64);
        let ghost old_pt = self.page_table@;
        self.page_table.map(VirtPageNum(TRAMPOLINE_VPN), ppn, PERM_R | PERM_X);
        proof {
            assert((PERM_R | PERM_X) | PTE_V == 11u8) by (bit_vector);
            assert forall|k: int| 0 <= k < self.areas@.len() implies self.area_fits(#[trigger] self.areas@[k]) by {
                let a = self.areas@[k];
                assert(old(self).area_fits(a));
                assert forall|v: u64| a.start() <= v < a.end() implies #[trigger] self.page_table@.contains_key(v)
                    && self.page_table@[v] == a.leaf(v) by {
                    assert(old_pt.contains_key(v));
                }
            }
            assert(self.areas@ == old(self).areas@);
            assert(self.root() == old(self).root());
            assert forall|k: int, l: int, p: u64| k != l && #[trigger] self.area_holds(k, p) implies !#[trigger] self.area_holds(l, p) by {
                assert(old(self).area_holds(k, p));
                if self.area_holds(l, p) {
                    assert(old(self).area_holds(l, p));
                }
            }
            assert forall|p: u64| self.frames().contains(p) <==> old(self).frames().contains(p) by {
                if self.frames().contains(p) && p != self.root() {
                    let k = choose|k: int| #[trigger] self.area_holds(k, p);
                    assert(old(self).area_holds(k, p));
                }
                if old(self).frames().contains(p) && p != self.root() {
                    let k = choose|k: int| #[trigger] old(self).area_holds(k, p);
                    assert(self.area_holds(k, p));
                }
            }
            assert(self.frames() =~= old(self).frames());
            assert forall|v: u64| #[trigger] self.page_table@.contains_key(v) implies v == TRAMPOLINE_VPN || exists|k: int|
                0 <= k < self.areas@.len() && #[trigger] self.areas@[k].start() <= v < self.areas@[k].end() by {
                if v != TRAMPOLINE_VPN {
                    assert(old_pt.contains_key(v));
                }
            }
        }
    }

    /// Drops every area and gives back the frames they hold. The page table
    /// keeps its entries.
    pub fn recycle_data_pages(&mut self, allocator: &mut StackFrameAllocator)
        requires
            old(self).wf(),
            old(allocator).wf(),
            old(self).frames_in_use(old(allocator)),
        ensures
            final(allocator).wf(),
            final(self).infos() == Seq::<AreaInfo>::empty(),
            final(self).area_count() == 0,
            final(self).pt() == old(self).pt(),
            final(self).root() == old(self).root(),
            final(self).frames() == set![old(self).root()],
            final(self).frames_in_use(final(allocator)),
            forall|p: u64| final(allocator).in_use(p) <==>
                (old(allocator).in_use(p) && (p == old(self).root() || !old(self).frames().contains(p))),
    {
        let ghost old_areas = self.areas@;
        let ghost n0 = self.areas@.len() as int;
        while self.areas.len() > 0
            invariant
                old(self).wf(),
                old(self).frames_in_use(old(allocator)),
                old_areas == old(self).areas@,
                n0 == old_areas.len(),
                self.page_table == old(self).page_table,
                self.areas@.len() <= n0,
                self.areas@ == old_areas.subrange(0, self.areas@.len() as int),
                allocator.wf(),
                forall|p: u64| allocator.in_use(p) <==> (old(allocator).in_use(p)
                    && !(exists|k: int| self.areas@.len() <= k < n0 && #[trigger] old(self).area_holds(k, p))),
            decreases self.areas@.len(),
        {
            let ghost m = (self.areas@.len() - 1) as int;
            let mut area = match self.areas.pop() {
                Some(a) => a,
                None => { proof { assert(false); } return; }
            };
            proof {
                assert(area == old_areas[m]);
                assert(old(self).area_fits(area));
                assert forall|p: u64| area.frames().contains(p) implies allocator.in_use(p) by {
                    assert(old(self).area_holds(m, p));
                    assert(old(self).frames().contains(p));
                    if exists|k: int| m + 1 <= k < n0 && #[trigger] old(self).area_holds(k, p) {
                        let k = choose|k: int| m + 1 <= k < n0 && #[trigger] old(self).area_holds(k, p);
                        assert(!old(self).area_holds(k, p));
                    }
                }
            }
            let ghost popped = area;
            area.release_frames(allocator);
            proof {
                assert(self.areas@ =~= old_areas.subrange(0, m));
                assert forall|p: u64| allocator.in_use(p) <==> (old(allocator).in_use(p)
                    && !(exists|k: int| m <= k < n0 && #[trigger] old(self).area_holds(k, p))) by {
                    if exists|k: int| m <= k < n0 && #[trigger] old(self).area_holds(k, p) {
                        let k = choose|k: int| m <= k < n0 && #[trigger] old(self).area_holds(k, p);
                        if k != m {
                            assert(exists|k2: int| m + 1 <= k2 < n0 && #[trigger] old(self).area_holds(k2, p));
                        } else {
                            assert(popped.frames().contains(p));
                        }
                    }
                    if popped.frames().contains(p) {
                        assert(old(self).area_holds(m, p));
                    }
                    if exists|k: int| m + 1 <= k < n0 && #[trigger] old(self).area_holds(k, p) {
                        let k = choose|k: int| m + 1 <= k < n0 && #[trigger] old(self).area_holds(k, p);
                        assert(m <= k < n0);
                    }
                }
            }
        }
        proof {
            assert(self.infos() =~= Seq::<AreaInfo>::empty());
            assert(self.frames() =~= set![old(self).root()]);
            assert forall|p: u64| allocator.in_use(p) <==>
                (old(allocator).in_use(p) && (p == old(self).root() || !old(self).frames().contains(p))) by {
                if exists|k: int| 0 <= k < n0 && #[trigger] old(self).area_holds(k, p) {
                    let k = choose|k: int| 0 <= k < n0 && #[trigger] old(self).area_holds(k, p);
                    assert(old(self).frames().contains(p));
                    assert(old(self).area_fits(old(self).areas@[k]));
                }
                if old(self).frames().contains(p) && p != old(self).root() {
                    let k = choose|k: int| #[trigger] old(self).area_holds(k, p);
                }
            }
            assert(old(self).frames().contains(old(self).root()));
        }
    }

    /// Gives back every frame the address space holds, its root table
    /// included.
    pub fn release(self, allocator: &mut StackFrameAllocator)
        requires
            self.wf(),
            old(allocator).wf(),
            self.frames_in_use(old(allocator)),
        ensures
            final(allocator).wf(),
            forall|p: u64| final(allocator).in_use(p) <==> (old(allocator).in_use(p) && !self.frames().contains(p)),
    {
        let mut ms = self;
        ms.recycle_data_pages(allocator);
        proof {
            assert(ms.frames().contains(ms.root()));
        }
        ms.page_table.release(allocator);
    }

    /// Every page of area `k` is mapped with the rights of the area: to the
    /// frame of the same number when the area is identical.
    pub proof fn lemma_area_page_mapped(&self, k: int, v: u64)
        requires
            self.wf(),
            0 <= k < self.infos().len(),
            self.infos()[k].start <= v < self.infos()[k].end,
        ensures
            self.pt().contains_key(v),
            self.pt()[v].flags == self.infos()[k].perm.bits | PTE_V,
            self.infos()[k].map_type == MapType::Identical ==> self.pt()[v].ppn == PhysPageNum(v),
            v != TRAMPOLINE_VPN,
    {
        let a = self.areas@[k];
        assert(self.area_fits(a));
        assert(self.infos()[k] == a.info());
        a.lemma_info();
        assert(a.start() <= v < a.end());
        assert(self.page_table@.contains_key(v));
        assert(self.page_table@[v] == a.leaf(v));
    }

    /// Every mapped page other than the trampoline belongs to some area.
    pub proof fn lemma_mapped_page_in_area(&self, v: u64)
        requires
            self.wf(),
            self.pt().contains_key(v),
            v != TRAMPOLINE_VPN,
        ensures
            exists|k: int| 0 <= k < self.infos().len() && #[trigger] self.infos()[k].start <= v < self.infos()[k].end,
    {
        let k = choose|k: int| 0 <= k < self.areas@.len() && #[trigger] self.areas@[k].start() <= v < self.areas@[k].end();
        assert(self.infos()[k] == self.areas@[k].info());
        self.areas@[k].lemma_info();
        assert(self.infos()[k].start <= v < self.infos()[k].end);
    }

    /// Adds an identical area over `[start_va, end_va)`, above every page
    /// mapped so far apart from the trampoline.
    fn push_identical(&mut self, start_va: u64, end_va: u64, perm: MapPermission, allocator: &mut StackFrameAllocator)
        requires
            old(self).wf(),
            old(allocator).wf(),
            old(self).frames_in_use(old(allocator)),
            start_va < 0x80_0000_0000,
            end_va < 0x80_0000_0000,
            floor_vpn(start_va as int) <= ceil_vpn(end_va as int),
            ceil_vpn(end_va as int) <= TRAMPOLINE_VPN,
            forall|v: u64| #[trigger] old(self).pt().contains_key(v) ==> v == TRAMPOLINE_VPN || v < floor_vpn(start_va as int),
        ensures
            final(self).wf(),
            final(allocator).wf(),
            final(self).frames_in_use(final(allocator)),
            final(self).root() == old(self).root(),
            final(self).frames() == old(self).frames(),
            forall|p: u64| final(allocator).in_use(p) <==> old(allocator).in_use(p),
            final(allocator).free_count() == old(allocator).free_count(),
            final(self).infos() == old(self).infos().push(AreaInfo {
                start: floor_vpn(start_va as int) as u64,
                end: ceil_vpn(end_va as int) as u64,
                map_type: MapType::Identical,
                perm: perm,
            }),
            forall|v: u64| #[trigger] final(self).pt().contains_key(v) ==> v == TRAMPOLINE_VPN || v < ceil_vpn(end_va as int),
            forall|v: u64| #[trigger] final(self).pt().contains_key(v) <==> (old(self).pt().contains_key(v)
                || floor_vpn(start_va as int) <= v < ceil_vpn(end_va as int)),
            forall|v: u64| old(self).pt().contains_key(v) ==> #[trigger] final(self).pt()[v] == old(self).pt()[v],
    {
        let start = VirtAddr::from_u64(start_va);
        let end = VirtAddr::from_u64(end_va);
        let area = MapArea::new(start, end, MapType::Identical, perm);
        proof {
            area.lemma_info();
            assert forall|v: u64| area.start() <= v < area.end() implies !old(self).pt().contains_key(v) by {
                if old(self).pt().contains_key(v) {
                    assert(v == TRAMPOLINE_VPN || v < floor_vpn(start_va as int));
                }
            }
        }
        self.push(area, None, allocator);
        proof {
            let a = self.area(old(self).area_count());
            assert forall|p: u64| !a.frames().contains(p) by {
                if a.frames().contains(p) {
                    let i = choose|i: int| #[trigger] a.slot_ppn(i) == Some(p);
                    assert(a.data_frames@[i] is Some);
                }
            }
            assert(self.frames() =~= old(self).frames());
            assert forall|v: u64| old(self).pt().contains_key(v) implies #[trigger] self.pt()[v] == old(self).pt()[v] by {
                assert(!a.mapping().contains_key(v));
            }
        }
    }

    /// The kernel's address space: the trampoline, then each section mapped
    /// onto itself (text R|X, rodata R, data R|W, bss R|W) and the rest of
    /// physical memory mapped onto itself R|W.
    pub fn new_kernel(layout: &KernelLayout, allocator: &mut StackFrameAllocator) -> (r: MemorySet)
        requires
            layout.valid(),
            old(allocator).wf(),
            old(allocator).free_count() > 0,
        ensures
            r.wf(),
            final(allocator).wf(),
            r.frames_in_use(final(allocator)),
            r.frames() == set![r.root()],
            !old(allocator).in_use(r.root()),
            forall|p: u64| p != r.root() ==> (final(allocator).in_use(p) <==> old(allocator).in_use(p)),
            r.infos() == kernel_areas(*layout),
            r.pt().contains_key(TRAMPOLINE_VPN),
            r.pt()[TRAMPOLINE_VPN] == (PageTableEntry { ppn: PhysPageNum(layout.strampoline / (PAGE_SIZE as u64)), flags: 11u8 }),
            forall|v: u64| #[trigger] r.pt().contains_key(v) <==> (v == TRAMPOLINE_VPN || r.in_some_area(v as int)),
    {
        let mut memory_set = Self::new_bare(allocator);
        memory_set.map_trampoline(layout.strampoline);
        let ghost s0 = memory_set;
        memory_set.push_identical(layout.stext, layout.etext, MapPermission { bits: PERM_R | PERM_X }, allocator);
        memory_set.push_identical(layout.srodata, layout.erodata, MapPermission { bits: PERM_R }, allocator);
        memory_set.push_identical(layout.sdata, layout.edata, MapPermission { bits: PERM_R | PERM_W }, allocator);
        memory_set.push_identical(layout.sbss_with_stack, layout.ebss, MapPermission { bits: PERM_R | PERM_W }, allocator);
        memory_set.push_identical(layout.ekernel, MEMORY_END as u64, MapPermission { bits: PERM_R | PERM_W }, allocator);
        proof {
            assert((PERM_R | PERM_X) == 10u8 && (PERM_R | PERM_W) == 6u8) by (bit_vector);
            let infos = memory_set.infos();
            assert forall|v: u64| #[trigger] memory_set.pt().contains_key(v) <==>
                (v == TRAMPOLINE_VPN || memory_set.in_some_area(v as int)) by {
                if memory_set.in_some_area(v as int) {
                    let k = choose|k: int| 0 <= k < infos.len() && #[trigger] infos[k].start <= v < infos[k].end;
                    assert(0 <= k < 5);
                }
                if memory_set.pt().contains_key(v) && v != TRAMPOLINE_VPN {
                    if floor_vpn(layout.stext as int) <= v < ceil_vpn(layout.etext as int) {
                        assert(infos[0].start <= v < infos[0].end);
                    } else if floor_vpn(layout.srodata as int) <= v < ceil_vpn(layout.erodata as int) {
                        assert(infos[1].start <= v < infos[1].end);
                    } else if floor_vpn(layout.sdata as int) <= v < ceil_vpn(layout.edata as int) {
                        assert(infos[2].start <= v < infos[2].end);
                    } else if floor_vpn(layout.sbss_with_stack as int) <= v < ceil_vpn(layout.ebss as int) {
                        assert(infos[3].start <= v < infos[3].end);
                    } else {
                        assert(infos[4].start <= v < infos[4].end);
                    }
                }
            }
        }
        memory_set
    }
}

/// Whether the middle pages of the kernel's text, rodata and data sections
/// are mapped with text and rodata not writable and data not executable.
pub open spec fn kernel_remapped(ms: &MemorySet, layout: KernelLayout) -> bool {
    let t = floor_vpn((layout.stext + layout.etext) / 2);
    let r = floor_vpn((layout.srodata + layout.erodata) / 2);
    let d = floor_vpn((layout.sdata + layout.edata) / 2);
    &&& ms.pt().contains_key(t as u64) && !ms.pt()[t as u64].has_flag(PTE_W)
    &&& ms.pt().contains_key(r as u64) && !ms.pt()[r as u64].has_flag(PTE_W)
    &&& ms.pt().contains_key(d as u64) && !ms.pt()[d as u64].has_flag(PTE_X)
}

/// In the kernel's address space, every page of text is mapped readable
/// and executable but not writable, every page of rodata readable only,
/// every page of data and bss readable and writable but not executable, and
/// every page of the physical memory past the kernel image onto itself,
/// readable and writable, neither executable nor open to user mode.
pub proof fn lemma_kernel_sections_protected(ms: &MemorySet, layout: KernelLayout, v: u64)
    requires
        ms.wf(),
        layout.valid(),
        ms.infos() == kernel_areas(layout),
    ensures
        floor_vpn(layout.stext as int) <= v < ceil_vpn(layout.etext as int) ==> ms.pt().contains_key(v)
            && ms.pt()[v].has_flag(PTE_R) && ms.pt()[v].has_flag(PTE_X) && !ms.pt()[v].has_flag(PTE_W),
        floor_vpn(layout.srodata as int) <= v < ceil_vpn(layout.erodata as int) ==> ms.pt().contains_key(v)
            && ms.pt()[v].has_flag(PTE_R) && !ms.pt()[v].has_flag(PTE_X) && !ms.pt()[v].has_flag(PTE_W),
        floor_vpn(layout.sdata as int) <= v < ceil_vpn(layout.edata as int) ==> ms.pt().contains_key(v)
            && ms.pt()[v].has_flag(PTE_R) && ms.pt()[v].has_flag(PTE_W) && !ms.pt()[v].has_flag(PTE_X),
        floor_vpn(layout.sbss_with_stack as int) <= v < ceil_vpn(layout.ebss as int) ==> ms.pt().contains_key(v)
            && ms.pt()[v].has_flag(PTE_R) && ms.pt()[v].has_flag(PTE_W) && !ms.pt()[v].has_flag(PTE_X),
        floor_vpn(layout.ekernel as int) <= v < ceil_vpn(MEMORY_END as int) ==> ms.pt().contains_key(v)
            && ms.pt()[v].ppn == PhysPageNum(v)
            && ms.pt()[v].has_flag(PTE_V) && ms.pt()[v].has_flag(PTE_R) && ms.pt()[v].has_flag(PTE_W)
            && !ms.pt()[v].has_flag(PTE_X) && !ms.pt()[v].has_flag(PTE_U),
{
    assert((10u8 | 1u8) == 11u8 && (2u8 | 1u8) == 3u8 && (6u8 | 1u8) == 7u8) by (bit_vector);
    assert(11u8 & 2u8 != 0 && 11u8 & 8u8 != 0 && 11u8 & 4u8 == 0) by (bit_vector);
    assert(3u8 & 2u8 != 0 && 3u8 & 8u8 == 0 && 3u8 & 4u8 == 0) by (bit_vector);
    assert(7u8 & 2u8 != 0 && 7u8 & 4u8 != 0 && 7u8 & 8u8 == 0) by (bit_vector);
    let infos = ms.infos();
    if floor_vpn(layout.stext as int) <= v < ceil_vpn(layout.etext as int) {
        ms.lemma_area_page_mapped(0, v);
    }
    if floor_vpn(layout.srodata as int) <= v < ceil_vpn(layout.erodata as int) {
        ms.lemma_area_page_mapped(1, v);
    }
    if floor_vpn(layout.sdata as int) <= v < ceil_vpn(layout.edata as int) {
        ms.lemma_area_page_mapped(2, v);
    }
    if floor_vpn(layout.sbss_with_stack as int) <= v < ceil_vpn(layout.ebss as int) {
        ms.lemma_area_page_mapped(3, v);
    }
    if floor_vpn(layout.ekernel as int) <= v < ceil_vpn(MEMORY_END as int) {
        ms.lemma_area_page_mapped(4, v);
        assert(7u8 & 1u8 != 0 && 7u8 & 16u8 == 0) by (bit_vector);
    }
}

/// The rights bits of a user area, from whether it is readable, writable and
/// executable.
proof fn lemma_rights_bits(r: bool, w: bool, x: bool)
    ensures
        ({
            let b = (16u8 | (if r { 2u8 } else { 0u8 }) | (if w { 4u8 } else { 0u8 }) | (if x { 8u8 } else { 0u8 })) as u8;
            &&& (b & 2u8 != 0) == r
            &&& (b & 4u8 != 0) == w
            &&& (b & 8u8 != 0) == x
            &&& b & 16u8 != 0
            &&& b & 1u8 == 0
        }),
{
    if r {
        if w {
            if x {
                assert((16u8 | 2u8 | 4u8 | 8u8) == 30u8) by (bit_vector);
                assert(30u8 & 2u8 != 0 && 30u8 & 4u8 != 0 && 30u8 & 8u8 != 0 && 30u8 & 16u8 != 0 && 30u8 & 1u8 == 0) by (bit_vector);
            } else {
                assert((16u8 | 2u8 | 4u8 | 0u8) == 22u8) by (bit_vector);
                assert(22u8 & 2u8 != 0 && 22u8 & 4u8 != 0 && 22u8 & 8u8 == 0 && 22u8 & 16u8 != 0 && 22u8 & 1u8 == 0) by (bit_vector);
            }
        } else {
            if x {
                assert((16u8 | 2u8 | 0u8 | 8u8) == 26u8) by (bit_vector);
                assert(26u8 & 2u8 != 0 && 26u8 & 4u8 == 0 && 26u8 & 8u8 != 0 && 26u8 & 16u8 != 0 && 26u8 & 1u8 == 0) by (bit_vector);
            } else {
                assert((16u8 | 2u8 | 0u8 | 0u8) == 18u8) by (bit_vector);
                assert(18u8 & 2u8 != 0 && 18u8 & 4u8 == 0 && 18u8 & 8u8 == 0 && 18u8 & 16u8 != 0 && 18u8 & 1u8 == 0) by (bit_vector);
            }
        }
    } else {
        if w {
            if x {
                assert((16u8 | 0u8 | 4u8 | 8u8) == 28u8) by (bit_vector);
                assert(28u8 & 2u8 == 0 && 28u8 & 4u8 != 0 && 28u8 & 8u8 != 0 && 28u8 & 16u8 != 0 && 28u8 & 1u8 == 0) by (bit_vector);
            } else {
                assert((16u8 | 0u8 | 4u8 | 0u8) == 20u8) by (bit_vector);
                assert(20u8 & 2u8 == 0 && 20u8 & 4u8 != 0 && 20u8 & 8u8 == 0 && 20u8 & 16u8 != 0 && 20u8 & 1u8 == 0) by (bit_vector);
            }
        } else {
            if x {
                assert((16u8 | 0u8 | 0u8 | 8u8) == 24u8) by (bit_vector);
                assert(24u8 & 2u8 == 0 && 24u8 & 4u8 == 0 && 24u8 & 8u8 != 0 && 24u8 & 16u8 != 0 && 24u8 & 1u8 == 0) by (bit_vector);
            } else {
                assert((16u8 | 0u8 | 0u8 | 0u8) == 16u8) by (bit_vector);
                assert(16u8 & 2u8 == 0 && 16u8 & 4u8 == 0 && 16u8 & 8u8 == 0 && 16u8 & 16u8 != 0 && 16u8 & 1u8 == 0) by (bit_vector);
            }
        }
    }
}

/// A loadable segment becomes a framed user area whose rights follow its ELF
/// flags: readable exactly when `PF_R` is set, writable exactly when `PF_W`
/// is, executable exactly when `PF_X` is; every page of it is mapped with
/// those rights, user access and the valid bit.
pub proof fn lemma_segment_rights(len: int, ph: ProgramHeaderInfo)
    ensures
        segment_plan(len, ph) matches Some(sp) ==> {
            let b = sp.area.perm.bits;
            let pte = (b | PTE_V) as u8;
            &&& sp.area.map_type == MapType::Framed
            &&& (b & PTE_R != 0) == (ph.flags & PF_R != 0)
            &&& (b & PTE_W != 0) == (ph.flags & PF_W != 0)
            &&& (b & PTE_X != 0) == (ph.flags & PF_X != 0)
            &&& b & PTE_U != 0
            &&& (pte & PTE_R != 0) == (ph.flags & PF_R != 0)
            &&& (pte & PTE_W != 0) == (ph.flags & PF_W != 0)
            &&& (pte & PTE_X != 0) == (ph.flags & PF_X != 0)
            &&& pte & PTE_U != 0
            &&& pte & PTE_V != 0
        },
{
    let f = ph.flags;
    assert((f & 4u32 == 4u32) == (f & 4u32 != 0) && (f & 2u32 == 2u32) == (f & 2u32 != 0)
        && (f & 1u32 == 1u32) == (f & 1u32 != 0)) by (bit_vector);
    let r = f & 4u32 == 4u32;
    let w = f & 2u32 == 2u32;
    let x = f & 1u32 == 1u32;
    lemma_rights_bits(r, w, x);
    let b = load_perm_bits(f);
    assert(b == (16u8 | (if r { 2u8 } else { 0u8 }) | (if w { 4u8 } else { 0u8 }) | (if x { 8u8 } else { 0u8 })) as u8);
    assert(((b | 1u8) & 2u8 != 0) == (b & 2u8 != 0) && ((b | 1u8) & 4u8 != 0) == (b & 4u8 != 0)
        && ((b | 1u8) & 8u8 != 0) == (b & 8u8 != 0) && ((b | 1u8) & 16u8 != 0) == (b & 16u8 != 0)
        && (b | 1u8) & 1u8 != 0) by (bit_vector);
}

proof fn lemma_va_small(x: int)
    requires
        0 <= x < 0x80_0000_0000,
    ensures
        va_of(x) == x,
{
}

proof fn lemma_mid_page(a: u64, b: u64)
    requires
        a < b < 0x80_0000_0000,
    ensures
        floor_vpn(a as int) <= floor_vpn((a + b) / 2) < ceil_vpn(b as int),
{
}

proof fn lemma_kernel_remapped(ms: &MemorySet, l: KernelLayout)
    requires
        ms.wf(),
        l.valid(),
        ms.infos() == kernel_areas(l),
        l.stext < l.etext,
        l.srodata < l.erodata,
        l.sdata < l.edata,
    ensures
        kernel_remapped(ms, l),
{
    lemma_mid_page(l.stext, l.etext);
    lemma_mid_page(l.srodata, l.erodata);
    lemma_mid_page(l.sdata, l.edata);
    lemma_kernel_sections_protected(ms, l, floor_vpn((l.stext + l.etext) / 2) as u64);
    lemma_kernel_sections_protected(ms, l, floor_vpn((l.srodata + l.erodata) / 2) as u64);
    lemma_kernel_sections_protected(ms, l, floor_vpn((l.sdata + l.edata) / 2) as u64);
}

/// Checks that the middle pages of the kernel's text and rodata are not
/// writable and that of its data not executable. It passes on every
/// kernel space whose sections are not empty.
#[verifier::spinoff_prover]
pub fn remap_test(kernel_space: &MemorySet, layout: &KernelLayout) -> (r: bool)
    requires
        kernel_space.wf(),
        layout.valid(),
    ensures
        r == kernel_remapped(kernel_space, *layout),
        kernel_space.infos() == kernel_areas(*layout) && layout.stext < layout.etext
            && layout.srodata < layout.erodata && layout.sdata < layout.edata ==> r,
{
    let mid_text = VirtAddr::from_u64((layout.stext + layout.etext) / 2);
    let mid_rodata = VirtAddr::from_u64((layout.srodata + layout.erodata) / 2);
    let mid_data = VirtAddr::from_u64((layout.sdata + layout.edata) / 2);
    let vt = mid_text.floor();
    let vr = mid_rodata.floor();
    let vd = mid_data.floor();
    let t = kernel_space.translate(vt);
    let ro = kernel_space.translate(vr);
    let d = kernel_space.translate(vd);
    let ok_text = match t {
        Some(pte) => !pte.writable(),
        None => false,
    };
    let ok_rodata = match ro {
        Some(pte) => !pte.writable(),
        None => false,
    };
    let ok_data = match d {
        Some(pte) => !pte.executable(),
        None => false,
    };
    proof {
        lemma_va_small((layout.stext + layout.etext) / 2);
        lemma_va_small((layout.srodata + layout.erodata) / 2);
        lemma_va_small((layout.sdata + layout.edata) / 2);
        let l = *layout;
        if kernel_space.infos() == kernel_areas(l) && l.stext < l.etext && l.srodata < l.erodata && l.sdata < l.edata {
            lemma_kernel_remapped(kernel_space, l);
        }
    }
    ok_text && ok_rodata && ok_data
}

} // verus!

verus! {

/// Why an ELF image cannot be loaded.
#[derive(Copy, Clone, PartialEq, Eq, Debug, Structural)]
pub enum ElfError {
    /// The file is not an ELF file of a known class.
    Malformed,
    /// A program header cannot be read, or names no known segment type.
    ProgramHeader,
    /// A loadable segment's addresses or file bytes do not fit.
    BadSegment,
    /// An area would share a page with another one or with the trampoline.
    Overlap,
    /// There are not enough free frames.
    OutOfMemory,
}

/// A loadable segment: its area and the file bytes copied to its start.
#[derive(Copy, Clone, PartialEq, Eq, Debug, Structural)]
pub struct SegmentPlan {
    pub area: AreaInfo,
    pub offset: u64,
    pub file_size: u64,
}

/// The rights of a loadable segment with ELF flags `flags`: user access,
/// plus read, write and execute as the flags say.
pub open spec fn load_perm_bits(flags: u32) -> u8 {
    PERM_U | (if flags & 4 == 4 { PERM_R } else { 0u8 }) | (if flags & 2 == 2 { PERM_W } else { 0u8 })
        | (if flags & 1 == 1 { PERM_X } else { 0u8 })
}

/// The area and bytes of a loadable segment of a file of `len` bytes, when
/// its addresses and bytes fit.
pub open spec fn segment_plan(len: int, ph: ProgramHeaderInfo) -> Option<SegmentPlan> {
    let s = va_of(ph.virtual_addr as int);
    let e = va_of(ph.virtual_addr + ph.mem_size);
    if ph.virtual_addr + ph.mem_size <= u64::MAX && floor_vpn(s) <= ceil_vpn(e)
        && ph.offset + ph.file_size <= len && ph.file_size <= (ceil_vpn(e) - floor_vpn(s)) * PAGE_SIZE {
        Some(SegmentPlan {
            area: AreaInfo {
                start: floor_vpn(s) as u64,
                end: ceil_vpn(e) as u64,
                map_type: MapType::Framed,
                perm: MapPermission { bits: load_perm_bits(ph.flags) },
            },
            offset: ph.offset,
            file_size: ph.file_size,
        })
    } else {
        None
    }
}

/// The loadable segments among the first `n` program headers, in order;
/// `None` when one of them cannot be read or does not fit.
pub open spec fn load_plan(data: Seq<u8>, h: ElfHeaderInfo, n: int) -> Option<Seq<SegmentPlan>>
    decreases n,
{
    if n <= 0 {
        Some(Seq::empty())
    } else {
        match load_plan(data, h, n - 1) {
            None => None,
            Some(s) => if !ph_readable(h, data.len() as int, (n - 1) as u16) {
                None
            } else {
                match elf_program_header(data, (n - 1) as u16) {
                    None => None,
                    Some(ph) => match ph.load {
                        None => None,
                        Some(false) => Some(s),
                        Some(true) => match segment_plan(data.len() as int, ph) {
                            None => None,
                            Some(sp) => Some(s.push(sp)),
                        },
                    },
                }
            },
        }
    }
}

/// The page just past the last loadable segment (0 when there is none).
pub open spec fn last_end(plan: Seq<SegmentPlan>) -> u64 {
    if plan.len() == 0 { 0 } else { plan.last().area.end }
}

/// The user stack: one guard page above `last_end`, then `USER_STACK_SIZE`
/// bytes, with addresses taken in Sv39.
pub open spec fn stack_area(last_end: u64) -> Option<AreaInfo> {
    let bottom = last_end * PAGE_SIZE + PAGE_SIZE;
    let top = bottom + USER_STACK_SIZE;
    if floor_vpn(va_of(bottom)) <= ceil_vpn(va_of(top)) {
        Some(AreaInfo {
            start: floor_vpn(va_of(bottom)) as u64,
            end: ceil_vpn(va_of(top)) as u64,
            map_type: MapType::Framed,
            perm: MapPermission { bits: 22u8 },
        })
    } else {
        None
    }
}

/// The top of the user stack above `last_end`.
pub open spec fn stack_top(last_end: u64) -> int {
    last_end * PAGE_SIZE + PAGE_SIZE + USER_STACK_SIZE
}

/// The trap-context page, read-write for the kernel only.
pub open spec fn trap_area() -> AreaInfo {
    AreaInfo { start: TRAP_CONTEXT_VPN, end: TRAMPOLINE_VPN, map_type: MapType::Framed, perm: MapPermission { bits: 6u8 } }
}

pub open spec fn plan_areas(plan: Seq<SegmentPlan>) -> Seq<AreaInfo> {
    plan.map_values(|sp: SegmentPlan| sp.area)
}

/// No two areas share a page, and none holds the trampoline page.
pub open spec fn areas_fit(areas: Seq<AreaInfo>) -> bool {
    &&& forall|i: int, j: int| 0 <= i < j < areas.len() ==>
        !pages_meet((#[trigger] areas[i]).start as int, areas[i].end as int, (#[trigger] areas[j]).start as int, areas[j].end as int)
    &&& forall|i: int| 0 <= i < areas.len() ==> !((#[trigger] areas[i]).start <= TRAMPOLINE_VPN < areas[i].end)
}

/// Number of pages the areas span.
pub open spec fn total_pages(areas: Seq<AreaInfo>) -> int
    decreases areas.len(),
{
    if areas.len() == 0 {
        0
    } else {
        total_pages(areas.drop_last()) + (areas.last().end - areas.last().start)
    }
}

/// The areas of the address space built from `data`: the loadable segments,
/// the user stack and the trap context; `None` when the file cannot be read
/// or a segment does not fit.
pub open spec fn elf_areas(data: Seq<u8>) -> Option<Seq<AreaInfo>> {
    if elf_header(data) is Some {
        let h = elf_header(data)->0;
        match load_plan(data, h, h.ph_count as int) {
            None => None,
            Some(plan) => match stack_area(last_end(plan)) {
                None => None,
                Some(st) => Some(plan_areas(plan).push(st).push(trap_area())),
            },
        }
    } else {
        None
    }
}

/// Loading `data` succeeds with `free` free frames: the file is readable,
/// its areas fit, and there is a frame for the root table and each page.
pub open spec fn elf_loadable(data: Seq<u8>, free: int) -> bool {
    &&& elf_areas(data) is Some
    &&& areas_fit(elf_areas(data)->0)
    &&& free >= 1 + total_pages(elf_areas(data)->0)
}

/// What adding area `a` after the areas `areas`, with `free` frames free,
/// fails with: it shares a page with one of them or holds the trampoline,
/// or there are fewer free frames than pages.
pub open spec fn push_error(areas: Seq<AreaInfo>, a: AreaInfo, free: int) -> Option<ElfError> {
    if (a.start <= TRAMPOLINE_VPN < a.end) || exists|k: int| 0 <= k < areas.len()
        && #[trigger] pages_meet(areas[k].start as int, areas[k].end as int, a.start as int, a.end as int) {
        Some(ElfError::Overlap)
    } else if free < a.end - a.start {
        Some(ElfError::OutOfMemory)
    } else {
        None
    }
}

/// The first error met loading program headers `0..n` of `data`, whose
/// header is `h`, in turn, `free` frames being free before the root table
/// was taken.
pub open spec fn segments_error(data: Seq<u8>, h: ElfHeaderInfo, n: int, free: int) -> Option<ElfError>
    decreases n,
{
    if n <= 0 {
        None
    } else {
        match segments_error(data, h, n - 1, free) {
            Some(e) => Some(e),
            None => {
                let areas = plan_areas(load_plan(data, h, n - 1)->0);
                if !ph_readable(h, data.len() as int, (n - 1) as u16) {
                    Some(ElfError::ProgramHeader)
                } else {
                    match elf_program_header(data, (n - 1) as u16) {
                        None => Some(ElfError::ProgramHeader),
                        Some(ph) => match ph.load {
                            None => Some(ElfError::ProgramHeader),
                            Some(false) => None,
                            Some(true) => match segment_plan(data.len() as int, ph) {
                                None => Some(ElfError::BadSegment),
                                Some(sp) => push_error(areas, sp.area, free - 1 - total_pages(areas)),
                            },
                        },
                    }
                }
            },
        }
    }
}

/// The error that loading `data` with `free` free frames fails with, in the
/// order the loader meets them, or `None` when it succeeds.
pub open spec fn elf_error(data: Seq<u8>, free: int) -> Option<ElfError> {
    if !(elf_header(data) is Some) {
        Some(ElfError::Malformed)
    } else if free < 1 {
        Some(ElfError::OutOfMemory)
    } else {
        let h = elf_header(data)->0;
        match segments_error(data, h, h.ph_count as int, free) {
            Some(e) => Some(e),
            None => {
                let plan = load_plan(data, h, h.ph_count as int)->0;
                let areas = plan_areas(plan);
                let left = free - 1 - total_pages(areas);
                match stack_area(last_end(plan)) {
                    None => Some(ElfError::BadSegment),
                    Some(st) => match push_error(areas, st, left) {
                        Some(e) => Some(e),
                        None => push_error(areas.push(st), trap_area(), left - (st.end - st.start)),
                    },
                }
            },
        }
    }
}

proof fn lemma_elf_error_in_segments(data: Seq<u8>, h: ElfHeaderInfo, i: int, free: int)
    requires
        elf_header(data) == Some(h),
        free >= 1,
        0 <= i <= h.ph_count,
        segments_error(data, h, i, free) is Some,
    ensures
        elf_error(data, free) == segments_error(data, h, i, free),
{
    lemma_segments_error_stops(data, h, i, h.ph_count as int, free);
}

proof fn lemma_segments_error_stops(data: Seq<u8>, h: ElfHeaderInfo, i: int, n: int, free: int)
    requires
        0 <= i <= n,
        segments_error(data, h, i, free) is Some,
    ensures
        segments_error(data, h, n, free) == segments_error(data, h, i, free),
    decreases n - i,
{
    if i < n {
        lemma_segments_error_stops(data, h, i, n - 1, free);
    }
}

proof fn lemma_load_plan_prefix(data: Seq<u8>, h: ElfHeaderInfo, i: int, n: int)
    requires
        0 <= i <= n,
        load_plan(data, h, n) is Some,
    ensures
        load_plan(data, h, i) is Some,
        load_plan(data, h, i)->0.len() <= load_plan(data, h, n)->0.len(),
        load_plan(data, h, n)->0.subrange(0, load_plan(data, h, i)->0.len() as int) == load_plan(data, h, i)->0,
    decreases n - i,
{
    if i < n {
        lemma_load_plan_prefix(data, h, i, n - 1);
        let a = load_plan(data, h, n - 1)->0;
        let b = load_plan(data, h, n)->0;
        assert(b == a || b == a.push(b.last()));
        let c = load_plan(data, h, i)->0;
        assert(b.subrange(0, c.len() as int) =~= a.subrange(0, c.len() as int));
    } else {
        assert(load_plan(data, h, n)->0.subrange(0, load_plan(data, h, n)->0.len() as int) =~= load_plan(data, h, n)->0);
    }
}

proof fn lemma_total_pages_prefix(s: Seq<AreaInfo>, k: int)
    requires
        0 <= k <= s.len(),
        forall|i: int| 0 <= i < s.len() ==> (#[trigger] s[i]).start <= s[i].end,
    ensures
        total_pages(s.subrange(0, k)) <= total_pages(s),
        total_pages(s) >= 0,
    decreases s.len(),
{
    if s.len() > 0 {
        if k == s.len() {
            assert(s.subrange(0, k) =~= s);
            lemma_total_pages_prefix(s.drop_last(), 0);
        } else {
            lemma_total_pages_prefix(s.drop_last(), k);
            assert(s.drop_last().subrange(0, k) =~= s.subrange(0, k));
        }
    }
}

impl MemorySet {
    /// Whether `[start, end)` shares a page with an area or holds the
    /// trampoline page.
    pub fn conflicts(&self, start: u64, end: u64) -> (r: bool)
        ensures
            r == ((start <= TRAMPOLINE_VPN < end) || exists|k: int| 0 <= k < self.infos().len()
                && #[trigger] pages_meet(self.infos()[k].start as int, self.infos()[k].end as int, start as int, end as int)),
    {
        if start <= TRAMPOLINE_VPN && TRAMPOLINE_VPN < end {
            return true;
        }
        let mut k: usize = 0;
        while k < self.areas.len()
            invariant
                k <= self.areas@.len(),
                forall|j: int| 0 <= j < k ==> !#[trigger] pages_meet(self.infos()[j].start as int, self.infos()[j].end as int,
                    start as int, end as int),
            decreases self.areas@.len() - k,
        {
            let info = self.areas[k].get_info();
            assert(self.infos()[k as int] == info);
            if info.start < info.end && start < end && info.start < end && start < info.end {
                assert(pages_meet(self.infos()[k as int].start as int, self.infos()[k as int].end as int, start as int, end as int));
                return true;
            }
            k = k + 1;
        }
        false
    }
}

impl MemorySet {
    /// The bytes of page `i` of area `k`, when the area holds a frame there.
    pub closed spec fn page_data(&self, k: int, i: int) -> Option<Seq<u8>> {
        match self.area(k).slot(i) {
            Some(f) => Some(f.data@),
            None => None,
        }
    }

    pub proof fn lemma_no_conflict_unmapped(&self, start: int, end: int)
        requires
            self.wf(),
            !((start <= TRAMPOLINE_VPN < end) || exists|k: int| 0 <= k < self.infos().len()
                && #[trigger] pages_meet(self.infos()[k].start as int, self.infos()[k].end as int, start, end)),
        ensures
            forall|v: u64| start <= v < end ==> !self.pt().contains_key(v),
    {
        assert forall|v: u64| start <= v < end implies !self.pt().contains_key(v) by {
            if self.pt().contains_key(v) {
                self.lemma_mapped_page_in_area(v);
                let k = choose|k: int| 0 <= k < self.infos().len() && #[trigger] self.infos()[k].start <= v < self.infos()[k].end;
                assert(pages_meet(self.infos()[k].start as int, self.infos()[k].end as int, start, end));
            }
        }
    }

    /// Adds the framed `map_area` with `data` copied in, unless it shares a
    /// page with an area or the trampoline, or the frames run short; then
    /// nothing changes.
    fn push_checked(&mut self, map_area: MapArea, data: Option<&[u8]>, allocator: &mut StackFrameAllocator)
        -> (r: Result<(), ElfError>)
        requires
            old(self).wf(),
            old(allocator).wf(),
            old(self).frames_in_use(old(allocator)),
            map_area.wf(),
            map_area.empty_slots(),
            map_area.typ() == MapType::Framed,
            data matches Some(d) ==> d@.len() <= (map_area.end() - map_area.start()) * PAGE_SIZE,
        ensures
            final(allocator).wf(),
            final(self).wf(),
            final(self).frames_in_use(final(allocator)),
            final(self).root() == old(self).root(),
            r == (if (map_area.start() <= TRAMPOLINE_VPN < map_area.end()) || exists|k: int| 0 <= k < old(self).infos().len()
                && #[trigger] pages_meet(old(self).infos()[k].start as int, old(self).infos()[k].end as int,
                    map_area.start(), map_area.end()) {
                Err(ElfError::Overlap)
            } else if old(allocator).free_count() < map_area.end() - map_area.start() {
                Err(ElfError::OutOfMemory)
            } else {
                Ok(())
            }),
            r is Err ==> *final(self) == *old(self) && *final(allocator) == *old(allocator),
            r is Ok ==> {
                &&& final(self).infos() == old(self).infos().push(map_area.info())
                &&& final(self).area_count() == old(self).area_count() + 1
                &&& forall|k: int| 0 <= k < old(self).area_count() ==> #[trigger] final(self).area(k) == old(self).area(k)
                &&& final(self).pt() == old(self).pt().union_prefer_right(final(self).area(old(self).area_count()).mapping())
                &&& forall|i: int| #[trigger] final(self).page_data(old(self).area_count(), i) matches Some(b)
                    ==> b == Self::initial_page(match data { Some(d) => Some(d@), None => None }, i)
                &&& forall|p: u64| final(allocator).in_use(p) <==> (old(allocator).in_use(p)
                    || final(self).area(old(self).area_count()).frames().contains(p))
                &&& forall|p: u64| #[trigger] final(self).frames().contains(p) <==> (old(self).frames().contains(p)
                    || final(self).area(old(self).area_count()).frames().contains(p))
                &&& forall|p: u64| final(self).area(old(self).area_count()).frames().contains(p) ==> !old(allocator).in_use(p)
                &&& final(self).area(old(self).area_count()).info() == map_area.info()
                &&& final(allocator).free_count() == old(allocator).free_count() - (map_area.end() - map_area.start())
            },
    {
        let range = map_area.vpn_range();
        if self.conflicts(range.start.0, range.end.0) {
            return Err(ElfError::Overlap);
        }
        let count = range.end.0 - range.start.0;
        if !allocator.has_free(count) {
            return Err(ElfError::OutOfMemory);
        }
        proof {
            self.lemma_no_conflict_unmapped(map_area.start(), map_area.end());
        }
        self.push(map_area, data, allocator);
        proof {
            let a = self.area(old(self).area_count());
            a.lemma_info();
            map_area.lemma_info();
        }
        Ok(())
    }
}

proof fn lemma_load_plan_ordered(data: Seq<u8>, h: ElfHeaderInfo, n: int)
    requires
        load_plan(data, h, n) is Some,
    ensures
        forall|k: int| 0 <= k < load_plan(data, h, n)->0.len() ==>
            (#[trigger] load_plan(data, h, n)->0[k]).area.start <= load_plan(data, h, n)->0[k].area.end <= VPN_LIMIT,
    decreases n,
{
    if n > 0 {
        lemma_load_plan_ordered(data, h, n - 1);
    }
}

/// Segment `n - 1` cannot be added to the plan of the first `n - 1` headers,
/// so no later plan exists.
proof fn lemma_load_plan_stops(data: Seq<u8>, h: ElfHeaderInfo, n: int, m: int)
    requires
        1 <= n <= m,
        load_plan(data, h, n) is None,
    ensures
        load_plan(data, h, m) is None,
{
    if load_plan(data, h, m) is Some {
        lemma_load_plan_prefix(data, h, n, m);
    }
}

impl MemorySet {
    pub proof fn lemma_wf_areas_fit(&self)
        requires
            self.wf(),
        ensures
            areas_fit(self.infos()),
            forall|k: int| 0 <= k < self.infos().len() ==> (#[trigger] self.infos()[k]).start <= self.infos()[k].end,
    {
        let infos = self.infos();
        assert forall|i: int, j: int| 0 <= i < j < infos.len() implies
            !pages_meet((#[trigger] infos[i]).start as int, infos[i].end as int, (#[trigger] infos[j]).start as int, infos[j].end as int) by {
            self.areas@[i].lemma_info();
            self.areas@[j].lemma_info();
        }
        assert forall|i: int| 0 <= i < infos.len() implies !((#[trigger] infos[i]).start <= TRAMPOLINE_VPN < infos[i].end) by {
            self.areas@[i].lemma_info();
            assert(self.area_fits(self.areas@[i]));
        }
        assert forall|k: int| 0 <= k < infos.len() implies (#[trigger] infos[k]).start <= infos[k].end by {
            self.areas@[k].lemma_info();
            assert(self.area_fits(self.areas@[k]));
        }
    }

    /// The rights of a loadable segment with ELF flags `flags`.
    fn load_perm(flags: u32) -> (r: MapPermission)
        ensures
            r.bits == load_perm_bits(flags),
    {
        let rd: u8 = if flags & 4 == 4 { PERM_R } else { 0u8 };
        let wr: u8 = if flags & 2 == 2 { PERM_W } else { 0u8 };
        let ex: u8 = if flags & 1 == 1 { PERM_X } else { 0u8 };
        MapPermission { bits: PERM_U | rd | wr | ex }
    }

    /// The user address space of the ELF image `elf_data`, for an image that
    /// loads with the frames `allocator` has free (the kernel stops on any
    /// other; `try_from_elf` answers which condition fails): the trampoline,
    /// one framed area per loadable segment holding the segment's file bytes
    /// from its first page on (the rest zero), a user stack one guard page
    /// above the last segment, and the trap-context page. Answers the space,
    /// the top of the user stack and the entry point.
    pub fn from_elf(elf_data: &[u8], strampoline: u64, allocator: &mut StackFrameAllocator) -> (r: (MemorySet, u64, u64))
        requires
            old(allocator).wf(),
            strampoline % (PAGE_SIZE as u64) == 0,
            elf_loadable(elf_data@, old(allocator).free_count() as int),
        ensures
            final(allocator).wf(),
            ({
                let (ms, sp, entry) = r;
                let h = elf_header(elf_data@)->0;
                let plan = load_plan(elf_data@, h, h.ph_count as int)->0;
                &&& ms.wf()
                &&& ms.frames_in_use(final(allocator))
                &&& ms.infos() == elf_areas(elf_data@)->0
                &&& entry == h.entry_point
                &&& sp == stack_top(last_end(plan))
                &&& ms.pt().contains_key(TRAMPOLINE_VPN)
                &&& ms.pt()[TRAMPOLINE_VPN] == (PageTableEntry { ppn: PhysPageNum(strampoline / (PAGE_SIZE as u64)), flags: 11u8 })
                &&& forall|j: int, i: int| 0 <= j < plan.len() ==> (#[trigger] ms.page_data(j, i) matches Some(b) ==>
                    b == page_image(zero_page(), elf_data@.subrange(plan[j].offset as int, plan[j].offset + plan[j].file_size), i))
                &&& forall|j: int, i: int| plan.len() <= j < ms.infos().len() ==> (#[trigger] ms.page_data(j, i) matches Some(b) ==> b == zero_page())
                &&& forall|p: u64| final(allocator).in_use(p) <==> (old(allocator).in_use(p) || ms.frames().contains(p))
                &&& forall|p: u64| ms.frames().contains(p) ==> !old(allocator).in_use(p)
                &&& final(allocator).free_count() == old(allocator).free_count() - 1 - total_pages(ms.infos())
            }),
    {
        Self::try_from_elf(elf_data, strampoline, allocator).unwrap()
    }

    /// The user address space of the ELF image `elf_data`: the trampoline,
    /// one framed area per loadable segment holding the segment's file bytes
    /// from its first page on (the rest zero), a user stack one guard page
    /// above the last segment, and the trap-context page. Answers the space,
    /// the top of the user stack and the entry point; an image that cannot be
    /// loaded is answered with the error `elf_error` names, and nothing is
    /// kept of what was built.
    pub fn try_from_elf(elf_data: &[u8], strampoline: u64, allocator: &mut StackFrameAllocator)
        -> (r: Result<(MemorySet, u64, u64), ElfError>)
        requires
            old(allocator).wf(),
            strampoline % (PAGE_SIZE as u64) == 0,
        ensures
            final(allocator).wf(),
            r is Ok <==> elf_loadable(elf_data@, old(allocator).free_count() as int),
            r matches Err(e) ==> elf_error(elf_data@, old(allocator).free_count() as int) == Some(e),
            r is Ok ==> elf_error(elf_data@, old(allocator).free_count() as int) is None,
            r is Err ==> forall|p: u64| final(allocator).in_use(p) <==> old(allocator).in_use(p),
            r matches Ok((ms, sp, entry)) ==> {
                let h = elf_header(elf_data@)->0;
                let plan = load_plan(elf_data@, h, h.ph_count as int)->0;
                &&& ms.wf()
                &&& ms.frames_in_use(final(allocator))
                &&& ms.infos() == elf_areas(elf_data@)->0
                &&& entry == h.entry_point
                &&& sp == stack_top(last_end(plan))
                &&& ms.pt().contains_key(TRAMPOLINE_VPN)
                &&& ms.pt()[TRAMPOLINE_VPN] == (PageTableEntry { ppn: PhysPageNum(strampoline / (PAGE_SIZE as u64)), flags: 11u8 })
                &&& forall|j: int, i: int| 0 <= j < plan.len() ==> (#[trigger] ms.page_data(j, i) matches Some(b) ==>
                    b == page_image(zero_page(), elf_data@.subrange(plan[j].offset as int, plan[j].offset + plan[j].file_size), i))
                &&& forall|j: int, i: int| plan.len() <= j < ms.infos().len() ==> (#[trigger] ms.page_data(j, i) matches Some(b) ==> b == zero_page())
                &&& forall|p: u64| final(allocator).in_use(p) <==> (old(allocator).in_use(p) || ms.frames().contains(p))
                &&& forall|p: u64| ms.frames().contains(p) ==> !old(allocator).in_use(p)
                &&& final(allocator).free_count() == old(allocator).free_count() - 1 - total_pages(ms.infos())
            },
    {
        let ghost data = elf_data@;
        let data_len = elf_data.len();
        let ghost free0 = old(allocator).free_count() as int;
        let h = match parse_elf_header(elf_data) {
            Some(h) => h,
            None => {
                return Err(ElfError::Malformed);
            }
        };
        let ghost n = h.ph_count as int;
        if !allocator.has_free(1) {
            proof {
                if elf_loadable(data, free0) {
                    let all = elf_areas(data)->0;
                    let plan = load_plan(data, h, n)->0;
                    lemma_load_plan_ordered(data, h, n);
                    assert forall|k: int| 0 <= k < all.len() implies (#[trigger] all[k]).start <= all[k].end by {
                        if k < plan.len() {
                            assert(all[k] == plan[k].area);
                        }
                    }
                    lemma_total_pages_prefix(all, 0);
                }
            }
            return Err(ElfError::OutOfMemory);
        }
        let mut memory_set = Self::new_bare(allocator);
        memory_set.map_trampoline(strampoline);
        let ghost tramp = PageTableEntry { ppn: PhysPageNum(strampoline / (PAGE_SIZE as u64)), flags: 11u8 };
        let ghost mut plan: Seq<SegmentPlan> = Seq::empty();
        let mut max_end_vpn: u64 = 0;
        let mut i: u16 = 0;
        proof {
            assert(memory_set.infos() =~= plan_areas(plan));
            assert(total_pages(plan_areas(plan)) == 0);
            assert forall|p: u64| memory_set.frames().contains(p) implies !old(allocator).in_use(p) by {}
        }
        while i < h.ph_count
            invariant
                data == elf_data@,
                data_len == data.len(),
                elf_header(data) == Some(h),
                n == h.ph_count,
                i <= h.ph_count,
                free0 == old(allocator).free_count(),
                memory_set.wf(),
                allocator.wf(),
                memory_set.frames_in_use(allocator),
                memory_set.pt().contains_key(TRAMPOLINE_VPN),
                memory_set.pt()[TRAMPOLINE_VPN] == tramp,
                load_plan(data, h, i as int) == Some(plan),
                segments_error(data, h, i as int, free0) is None,
                free0 >= 1,
                memory_set.infos() == plan_areas(plan),
                allocator.free_count() == free0 - 1 - total_pages(plan_areas(plan)),
                max_end_vpn == last_end(plan),
                max_end_vpn <= VPN_LIMIT,
                forall|j: int, k: int| 0 <= j < plan.len() ==> (#[trigger] memory_set.page_data(j, k) matches Some(b) ==>
                    b == page_image(zero_page(), data.subrange(plan[j].offset as int, plan[j].offset + plan[j].file_size), k)),
                forall|p: u64| allocator.in_use(p) <==> (old(allocator).in_use(p) || memory_set.frames().contains(p)),
                forall|p: u64| memory_set.frames().contains(p) ==> !old(allocator).in_use(p),
            decreases h.ph_count - i,
        {
            let ghost prev = memory_set;
            let ghost prev_alloc = *allocator;
            let ph = match parse_program_header(elf_data, &h, i) {
                Some(ph) => ph,
                None => {
                    proof {
                        lemma_load_plan_stops(data, h, i + 1, n);
                        assert(segments_error(data, h, i + 1, free0) == Some(ElfError::ProgramHeader));
                        lemma_elf_error_in_segments(data, h, i + 1, free0);
                    }
                    memory_set.release(allocator);
                    return Err(ElfError::ProgramHeader);
                }
            };
            match ph.load {
                None => {
                    proof {
                        lemma_load_plan_stops(data, h, i + 1, n);
                        assert(segments_error(data, h, i + 1, free0) == Some(ElfError::ProgramHeader));
                        lemma_elf_error_in_segments(data, h, i + 1, free0);
                    }
                    memory_set.release(allocator);
                    return Err(ElfError::ProgramHeader);
                }
                Some(false) => {
                    assert(load_plan(data, h, i + 1) == Some(plan));
                    assert(segments_error(data, h, i + 1, free0) is None);
                }
                Some(true) => {
                    if ph.virtual_addr > u64::MAX - ph.mem_size {
                        proof {
                            assert(segment_plan(data.len() as int, ph) is None);
                            assert(((i + 1) as int - 1) as u16 == i);
                            assert(load_plan(data, h, i + 1) is None);
                            lemma_load_plan_stops(data, h, i + 1, n);
                            assert(segments_error(data, h, i + 1, free0) == Some(ElfError::BadSegment));
                            lemma_elf_error_in_segments(data, h, i + 1, free0);
                        }
                        memory_set.release(allocator);
                        return Err(ElfError::BadSegment);
                    }
                    let start_va = VirtAddr::from_u64(ph.virtual_addr);
                    let end_va = VirtAddr::from_u64(ph.virtual_addr + ph.mem_size);
                    let start_vpn = start_va.floor();
                    let end_vpn = end_va.ceil();
                    if start_vpn.0 > end_vpn.0 || ph.offset > u64::MAX - ph.file_size
                        || ph.offset + ph.file_size > elf_data.len() as u64
                        || ph.file_size > (end_vpn.0 - start_vpn.0) * (PAGE_SIZE as u64) {
                        proof {
                            let sv = va_of(ph.virtual_addr as int);
                            let ev = va_of(ph.virtual_addr + ph.mem_size);
                            assert(start_vpn.0 == floor_vpn(sv));
                            assert(end_vpn.0 == ceil_vpn(ev));
                            if start_vpn.0 <= end_vpn.0 {
                                assert((end_vpn.0 - start_vpn.0) * (PAGE_SIZE as u64) == (ceil_vpn(ev) - floor_vpn(sv)) * PAGE_SIZE);
                                if ph.offset > u64::MAX - ph.file_size {
                                    assert(data.len() == data_len);
                                    assert(!(ph.offset + ph.file_size <= data.len()));
                                } else if ph.offset + ph.file_size > elf_data.len() as u64 {
                                    assert(!(ph.offset + ph.file_size <= data.len()));
                                } else {
                                    assert(!(ph.file_size <= (ceil_vpn(ev) - floor_vpn(sv)) * PAGE_SIZE));
                                }
                            }
                            assert(segment_plan(data.len() as int, ph) is None);
                            assert(((i + 1) as int - 1) as u16 == i);
                            assert(load_plan(data, h, i + 1) is None);
                            lemma_load_plan_stops(data, h, i + 1, n);
                            assert(segments_error(data, h, i + 1, free0) == Some(ElfError::BadSegment));
                            lemma_elf_error_in_segments(data, h, i + 1, free0);
                        }
                        memory_set.release(allocator);
                        return Err(ElfError::BadSegment);
                    }
                    let perm = Self::load_perm(ph.flags);
                    let map_area = MapArea::new(start_va, end_va, MapType::Framed, perm);
                    let ghost sp = segment_plan(data.len() as int, ph)->0;
                    proof {
                        assert(segment_plan(data.len() as int, ph) is Some);
                        assert(load_plan(data, h, i + 1) == Some(plan.push(sp)));
                        map_area.lemma_info();
                        assert(map_area.info() == sp.area);
                    }
                    let bytes = vstd::slice::slice_subrange(elf_data, ph.offset as usize, (ph.offset + ph.file_size) as usize);
                    proof {
                        assert(segments_error(data, h, i + 1, free0)
                            == push_error(plan_areas(plan), sp.area, free0 - 1 - total_pages(plan_areas(plan))));
                    }
                    match memory_set.push_checked(map_area, Some(bytes), allocator) {
                        Ok(()) => {}
                        Err(e) => {
                            proof {
                                assert(segments_error(data, h, i + 1, free0) == Some(e));
                                lemma_elf_error_in_segments(data, h, i + 1, free0);
                                if elf_loadable(data, free0) {
                                    let full = load_plan(data, h, n)->0;
                                    lemma_load_plan_prefix(data, h, i + 1, n);
                                    lemma_load_plan_ordered(data, h, n);
                                    let all = elf_areas(data)->0;
                                    let m = plan.len() as int;
                                    assert(full.subrange(0, m + 1) == plan.push(sp));
                                    assert(full[m] == full.subrange(0, m + 1)[m]);
                                    assert(full[m] == sp);
                                    assert(all[m] == plan_areas(full)[m]);
                                    assert(all[m] == sp.area);
                                    assert forall|k: int| 0 <= k < m implies #[trigger] all[k] == plan_areas(plan)[k] by {
                                        assert(full.subrange(0, m + 1)[k] == full[k]);
                                        assert(plan.push(sp)[k] == plan[k]);
                                        assert(full[k] == plan[k]);
                                    }
                                    if e == ElfError::Overlap {
                                        if sp.area.start <= TRAMPOLINE_VPN < sp.area.end {
                                            assert(!areas_fit(all));
                                        } else {
                                            let k = choose|k: int| 0 <= k < prev.infos().len()
                                                && #[trigger] pages_meet(prev.infos()[k].start as int, prev.infos()[k].end as int,
                                                    map_area.start(), map_area.end());
                                            assert(all[k] == prev.infos()[k]);
                                            assert(!areas_fit(all));
                                        }
                                    } else {
                                        assert forall|k: int| 0 <= k < all.len() implies (#[trigger] all[k]).start <= all[k].end by {
                                            if k < full.len() {
                                                assert(all[k] == full[k].area);
                                            }
                                        }
                                        lemma_total_pages_prefix(all, m + 1);
                                        assert(all.subrange(0, m + 1).drop_last() =~= plan_areas(plan));
                                        assert(all.subrange(0, m + 1).last() == sp.area);
                                        assert(total_pages(all.subrange(0, m + 1)) == total_pages(plan_areas(plan)) + (sp.area.end - sp.area.start));
                                    }
                                }
                            }
                            memory_set.release(allocator);
                            return Err(e);
                        }
                    }
                    max_end_vpn = end_vpn.0;
                    proof {
                        let m = plan.len() as int;
                        let new_plan = plan.push(sp);
                        assert(memory_set.infos() =~= plan_areas(new_plan));
                        assert(plan_areas(new_plan).drop_last() =~= plan_areas(plan));
                        assert forall|j: int, k: int| 0 <= j < new_plan.len() implies (#[trigger] memory_set.page_data(j, k) matches Some(b) ==>
                            b == page_image(zero_page(), data.subrange(new_plan[j].offset as int, new_plan[j].offset + new_plan[j].file_size), k)) by {
                            if j < m {
                                assert(memory_set.area(j) == prev.area(j));
                                assert(memory_set.page_data(j, k) == prev.page_data(j, k));
                            } else {
                                assert(bytes@ == data.subrange(sp.offset as int, sp.offset + sp.file_size));
                            }
                        }
                        assert forall|p: u64| allocator.in_use(p) <==> (old(allocator).in_use(p) || memory_set.frames().contains(p)) by {
                            if memory_set.area(m).frames().contains(p) {
                                assert(memory_set.frames().contains(p));
                            }
                        }
                        plan = new_plan;
                    }
                }
            }
            i = i + 1;
        }
        let ghost full = plan;
        proof {
            assert(load_plan(data, h, n) == Some(full));
        }
        // the user stack, one guard page above the last segment
        let max_end_va = VirtPageNum(max_end_vpn).to_va();
        let user_stack_bottom: u64 = max_end_va.0 + PAGE_SIZE as u64;
        let user_stack_top: u64 = user_stack_bottom + USER_STACK_SIZE as u64;
        let bottom_va = VirtAddr::from_u64(user_stack_bottom);
        let top_va = VirtAddr::from_u64(user_stack_top);
        if bottom_va.floor().0 > top_va.ceil().0 {
            proof {
                assert(stack_area(last_end(full)) is None);
                assert(elf_error(data, free0) == Some(ElfError::BadSegment));
            }
            memory_set.release(allocator);
            return Err(ElfError::BadSegment);
        }
        proof {
            assert(stack_area(last_end(full)) is Some);
        }
        let stack = MapArea::new(bottom_va, top_va, MapType::Framed, MapPermission { bits: PERM_R | PERM_W | PERM_U });
        let ghost st = stack_area(last_end(full))->0;
        let ghost prev1 = memory_set;
        proof {
            assert((PERM_R | PERM_W | PERM_U) == 22u8) by (bit_vector);
            stack.lemma_info();
            assert(stack.info() == st);
        }
        proof {
            assert(prev1.infos() == plan_areas(full));
            assert(elf_error(data, free0) == match push_error(plan_areas(full), st, free0 - 1 - total_pages(plan_areas(full))) {
                Some(e) => Some(e),
                None => push_error(plan_areas(full).push(st), trap_area(),
                    free0 - 1 - total_pages(plan_areas(full)) - (st.end - st.start)),
            });
        }
        match memory_set.push_checked(stack, None, allocator) {
            Ok(()) => {}
            Err(e) => {
                proof {
                    assert(push_error(plan_areas(full), st, free0 - 1 - total_pages(plan_areas(full))) == Some(e));
                    if elf_loadable(data, free0) {
                        let all = elf_areas(data)->0;
                        let m = full.len() as int;
                        assert(all[m] == st);
                        assert forall|k: int| 0 <= k < m implies #[trigger] all[k] == plan_areas(full)[k] by {}
                        if e == ElfError::Overlap {
                            if st.start <= TRAMPOLINE_VPN < st.end {
                                assert(!areas_fit(all));
                            } else {
                                let k = choose|k: int| 0 <= k < prev1.infos().len()
                                    && #[trigger] pages_meet(prev1.infos()[k].start as int, prev1.infos()[k].end as int,
                                        stack.start(), stack.end());
                                assert(all[k] == prev1.infos()[k]);
                                assert(!areas_fit(all));
                            }
                        } else {
                            lemma_load_plan_ordered(data, h, n);
                            assert forall|k: int| 0 <= k < all.len() implies (#[trigger] all[k]).start <= all[k].end by {
                                if k < m {
                                    assert(all[k] == full[k].area);
                                }
                            }
                            lemma_total_pages_prefix(all, m + 1);
                            assert(all.subrange(0, m + 1).drop_last() =~= plan_areas(full));
                            assert(all.subrange(0, m + 1).last() == st);
                            assert(total_pages(all.subrange(0, m + 1)) == total_pages(plan_areas(full)) + (st.end - st.start));
                        }
                    }
                }
                memory_set.release(allocator);
                return Err(e);
            }
        }
        // the trap context, just below the trampoline
        let trap = MapArea::new(VirtAddr::from_u64(TRAP_CONTEXT), VirtAddr::from_u64(TRAMPOLINE), MapType::Framed,
            MapPermission { bits: PERM_R | PERM_W });
        let ghost prev2 = memory_set;
        proof {
            assert((PERM_R | PERM_W) == 6u8) by (bit_vector);
            trap.lemma_info();
            assert(trap.info() == trap_area());
        }
        proof {
            assert(prev2.infos() == plan_areas(full).push(st));
        }
        match memory_set.push_checked(trap, None, allocator) {
            Ok(()) => {}
            Err(e) => {
                proof {
                    assert(elf_error(data, free0) == Some(e));
                    if elf_loadable(data, free0) {
                        let all = elf_areas(data)->0;
                        let m = full.len() as int;
                        assert(all[m + 1] == trap_area());
                        assert(all == prev2.infos().push(trap_area()));
                        if e == ElfError::Overlap {
                            let k = choose|k: int| 0 <= k < prev2.infos().len()
                                && #[trigger] pages_meet(prev2.infos()[k].start as int, prev2.infos()[k].end as int,
                                    trap.start(), trap.end());
                            assert(all[k] == prev2.infos()[k]);
                            assert(!areas_fit(all));
                        } else {
                            assert(all.drop_last() =~= prev2.infos());
                            assert(prev2.infos().drop_last() =~= plan_areas(full));
                            assert(total_pages(prev2.infos()) == total_pages(plan_areas(full)) + (st.end - st.start));
                            assert(total_pages(all) == total_pages(prev2.infos()) + (TRAMPOLINE_VPN - TRAP_CONTEXT_VPN));
                        }
                    }
                }
                memory_set.release(allocator);
                return Err(e);
            }
        }
        proof {
            assert(elf_error(data, free0) is None);
            let all = elf_areas(data)->0;
            assert(memory_set.infos() =~= all);
            memory_set.lemma_wf_areas_fit();
            assert(all.drop_last() =~= prev2.infos());
            assert(all.drop_last().drop_last() =~= prev1.infos());
            assert(total_pages(all) == total_pages(prev2.infos()) + (TRAMPOLINE_VPN - TRAP_CONTEXT_VPN));
            assert(total_pages(prev2.infos()) == total_pages(prev1.infos()) + (st.end - st.start));
            assert(elf_areas(data) == Some(all));
            assert(elf_loadable(data, free0));
            let m = full.len() as int;
            assert forall|j: int, k: int| 0 <= j < full.len() implies (#[trigger] memory_set.page_data(j, k) matches Some(b) ==>
                b == page_image(zero_page(), data.subrange(full[j].offset as int, full[j].offset + full[j].file_size), k)) by {
                assert(memory_set.area(j) == prev2.area(j));
                assert(prev2.area(j) == prev1.area(j));
                assert(memory_set.page_data(j, k) == prev1.page_data(j, k));
            }
            assert forall|j: int, k: int| full.len() <= j < memory_set.infos().len() implies (#[trigger] memory_set.page_data(j, k) matches Some(b) ==> b == zero_page()) by {
                if j == m {
                    assert(memory_set.area(j) == prev2.area(j));
                    assert(memory_set.page_data(j, k) == prev2.page_data(j, k));
                }
            }
            assert forall|p: u64| allocator.in_use(p) <==> (old(allocator).in_use(p) || memory_set.frames().contains(p)) by {
                if prev2.frames().contains(p) {
                    assert(memory_set.frames().contains(p));
                }
            }
        }
        Ok((memory_set, user_stack_top, h.entry_point))
    }
}

/// Number of pages of the framed areas among `areas`.
pub open spec fn framed_pages(areas: Seq<AreaInfo>) -> int
    decreases areas.len(),
{
    if areas.len() == 0 {
        0
    } else {
        framed_pages(areas.drop_last()) + if areas.last().map_type == MapType::Framed {
            areas.last().end - areas.last().start
        } else {
            0
        }
    }
}

proof fn lemma_framed_pages_prefix(s: Seq<AreaInfo>, k: int)
    requires
        0 <= k <= s.len(),
        forall|i: int| 0 <= i < s.len() ==> (#[trigger] s[i]).start <= s[i].end,
    ensures
        framed_pages(s.subrange(0, k)) <= framed_pages(s),
        framed_pages(s) >= 0,
    decreases s.len(),
{
    if s.len() > 0 {
        if k == s.len() {
            assert(s.subrange(0, k) =~= s);
            lemma_framed_pages_prefix(s.drop_last(), 0);
        } else {
            lemma_framed_pages_prefix(s.drop_last(), k);
            assert(s.drop_last().subrange(0, k) =~= s.subrange(0, k));
        }
    }
}

impl MapArea {
    /// The bytes of the area's frames, page after page.
    fn concat_bytes(&self) -> (r: Vec<u8>)
        requires
            self.wf(),
            self.typ() == MapType::Framed,
            self.full_slots(),
        ensures
            r@.len() == (self.end() - self.start()) * PAGE_SIZE,
            forall|i: int| 0 <= i < self.end() - self.start() ==>
                r@.subrange(i * PAGE_SIZE, i * PAGE_SIZE + PAGE_SIZE) == (#[trigger] self.slot(i))->0.data@,
    {
        let mut out: Vec<u8> = Vec::new();
        let n = self.data_frames.len();
        let mut i: usize = 0;
        while i < n
            invariant
                self.wf(),
                self.typ() == MapType::Framed,
                self.full_slots(),
                n == self.data_frames@.len(),
                i <= n,
                out@.len() == i * PAGE_SIZE,
                forall|k: int, t: int| 0 <= k < i && 0 <= t < PAGE_SIZE ==>
                    #[trigger] out@[k * PAGE_SIZE + t] == self.slot(k)->0.data@[t],
            decreases n - i,
        {
            let frame = match &self.data_frames[i] {
                Some(f) => f,
                None => {
                    proof { assert(self.data_frames@[i as int] is Some); }
                    return out;
                }
            };
            assert(frame.data@.len() == PAGE_SIZE);
            let ghost before = out@;
            let mut t: usize = 0;
            while t < PAGE_SIZE
                invariant
                    t <= PAGE_SIZE,
                    frame.data@.len() == PAGE_SIZE,
                    out@.len() == i * PAGE_SIZE + t,
                    out@.subrange(0, i * PAGE_SIZE) == before,
                    before.len() == i * PAGE_SIZE,
                    forall|u: int| 0 <= u < t ==> #[trigger] out@[i * PAGE_SIZE + u] == frame.data@[u],
                decreases PAGE_SIZE - t,
            {
                out.push(frame.data[t]);
                proof {
                    assert(out@.subrange(0, i * PAGE_SIZE) =~= before);
                }
                t = t + 1;
            }
            proof {
                assert(self.slot(i as int) == Some(*frame));
                assert forall|k: int, u: int| 0 <= k < i + 1 && 0 <= u < PAGE_SIZE implies
                    #[trigger] out@[k * PAGE_SIZE + u] == self.slot(k)->0.data@[u] by {
                    if k < i {
                        assert(k * PAGE_SIZE + u < i * PAGE_SIZE) by (nonlinear_arith)
                            requires k < i, u < PAGE_SIZE;
                        assert(out@[k * PAGE_SIZE + u] == out@.subrange(0, i * PAGE_SIZE)[k * PAGE_SIZE + u]);
                        assert(before[k * PAGE_SIZE + u] == self.slot(k)->0.data@[u]);
                    }
                }
            }
            i = i + 1;
        }
        proof {
            assert forall|k: int| 0 <= k < self.end() - self.start() implies
                out@.subrange(k * PAGE_SIZE, k * PAGE_SIZE + PAGE_SIZE) == (#[trigger] self.slot(k))->0.data@ by {
                assert(self.data_frames@[k] is Some);
                assert(out@.subrange(k * PAGE_SIZE, k * PAGE_SIZE + PAGE_SIZE) =~= self.slot(k)->0.data@) by {
                    assert forall|u: int| 0 <= u < PAGE_SIZE implies
                        out@.subrange(k * PAGE_SIZE, k * PAGE_SIZE + PAGE_SIZE)[u] == self.slot(k)->0.data@[u] by {
                        assert(out@[k * PAGE_SIZE + u] == self.slot(k)->0.data@[u]);
                    }
                }
            }
        }
        out
    }
}

impl MemorySet {
    /// A copy of `user_space`: the trampoline, then for each area an area
    /// with the same pages, mapping rule and rights, whose fresh frames hold
    /// the same bytes.
    pub fn from_existed_user(user_space: &MemorySet, strampoline: u64, allocator: &mut StackFrameAllocator) -> (r: MemorySet)
        requires
            user_space.wf(),
            old(allocator).wf(),
            user_space.frames_in_use(old(allocator)),
            strampoline % (PAGE_SIZE as u64) == 0,
            old(allocator).free_count() >= 1 + framed_pages(user_space.infos()),
        ensures
            r.wf(),
            final(allocator).wf(),
            r.frames_in_use(final(allocator)),
            r.infos() == user_space.infos(),
            r.pt().contains_key(TRAMPOLINE_VPN),
            r.pt()[TRAMPOLINE_VPN] == (PageTableEntry { ppn: PhysPageNum(strampoline / (PAGE_SIZE as u64)), flags: 11u8 }),
            forall|k: int, i: int| 0 <= k < r.infos().len() ==> #[trigger] r.page_data(k, i) == user_space.page_data(k, i),
            forall|p: u64| final(allocator).in_use(p) <==> (old(allocator).in_use(p) || r.frames().contains(p)),
            forall|p: u64| r.frames().contains(p) ==> !old(allocator).in_use(p),
            final(allocator).free_count() == old(allocator).free_count() - 1 - framed_pages(user_space.infos()),
    {
        let ghost all = user_space.infos();
        let ghost free0 = old(allocator).free_count() as int;
        proof {
            user_space.lemma_wf_areas_fit();
            lemma_framed_pages_prefix(all, 0);
        }
        let mut memory_set = Self::new_bare(allocator);
        memory_set.map_trampoline(strampoline);
        let ghost tramp = PageTableEntry { ppn: PhysPageNum(strampoline / (PAGE_SIZE as u64)), flags: 11u8 };
        let n = user_space.areas.len();
        let mut k: usize = 0;
        proof {
            assert(memory_set.infos() =~= all.subrange(0, 0));
        }
        while k < n
            invariant
                user_space.wf(),
                all == user_space.infos(),
                areas_fit(all),
                forall|j: int| 0 <= j < all.len() ==> (#[trigger] all[j]).start <= all[j].end,
                n == all.len(),
                n == user_space.areas@.len(),
                k <= n,
                free0 == old(allocator).free_count(),
                free0 >= 1 + framed_pages(all),
                memory_set.wf(),
                allocator.wf(),
                memory_set.frames_in_use(allocator),
                memory_set.pt().contains_key(TRAMPOLINE_VPN),
                memory_set.pt()[TRAMPOLINE_VPN] == tramp,
                memory_set.infos() == all.subrange(0, k as int),
                forall|j: int, i: int| 0 <= j < k ==> #[trigger] memory_set.page_data(j, i) == user_space.page_data(j, i),
                allocator.free_count() == free0 - 1 - framed_pages(all.subrange(0, k as int)),
                forall|p: u64| allocator.in_use(p) <==> (old(allocator).in_use(p) || memory_set.frames().contains(p)),
                forall|p: u64| memory_set.frames().contains(p) ==> !old(allocator).in_use(p),
            decreases n - k,
        {
            let ghost prev = memory_set;
            let area = &user_space.areas[k];
            let new_area = MapArea::from_another(area);
            proof {
                area.lemma_info();
                new_area.lemma_info();
                assert(user_space.area_fits(*area));
                assert(all[k as int] == area.info());
                lemma_framed_pages_prefix(all, k + 1);
                assert(all.subrange(0, k + 1).drop_last() =~= all.subrange(0, k as int));
                assert forall|v: u64| new_area.start() <= v < new_area.end() implies !memory_set.pt().contains_key(v) by {
                    if memory_set.pt().contains_key(v) {
                        assert(v != TRAMPOLINE_VPN);
                        memory_set.lemma_mapped_page_in_area(v);
                        let j = choose|j: int| 0 <= j < memory_set.infos().len()
                            && #[trigger] memory_set.infos()[j].start <= v < memory_set.infos()[j].end;
                        assert(memory_set.infos()[j] == all[j]);
                        assert(pages_meet(all[j].start as int, all[j].end as int, all[k as int].start as int, all[k as int].end as int));
                    }
                }
            }
            if area.map_type() == MapType::Framed {
                let bytes = area.concat_bytes();
                memory_set.push(new_area, Some(bytes.as_slice()), allocator);
                proof {
                    let m = k as int;
                    assert forall|i: int| #[trigger] memory_set.page_data(m, i) == user_space.page_data(m, i) by {
                        let a = memory_set.area(m);
                        if 0 <= i < a.end() - a.start() {
                            assert(a.data_frames@[i] is Some);
                            assert(area.data_frames@[i] is Some);
                            assert(bytes@.subrange(i * PAGE_SIZE, i * PAGE_SIZE + PAGE_SIZE) == area.slot(i)->0.data@);
                            assert(bytes@.len() >= i * PAGE_SIZE + PAGE_SIZE) by (nonlinear_arith)
                                requires bytes@.len() == (a.end() - a.start()) * PAGE_SIZE, i < a.end() - a.start();
                        }
                    }
                }
            } else {
                memory_set.push(new_area, None, allocator);
                proof {
                    let m = k as int;
                    assert forall|i: int| #[trigger] memory_set.page_data(m, i) == user_space.page_data(m, i) by {
                        let a = memory_set.area(m);
                        if 0 <= i < a.end() - a.start() {
                            if a.data_frames@[i] is Some {
                            }
                            if area.data_frames@[i] is Some {
                            }
                        }
                    }
                }
            }
            proof {
                let m = k as int;
                assert(memory_set.infos() =~= all.subrange(0, m + 1));
                assert forall|j: int, i: int| 0 <= j < m + 1 implies #[trigger] memory_set.page_data(j, i) == user_space.page_data(j, i) by {
                    if j < m {
                        assert(memory_set.area(j) == prev.area(j));
                        assert(memory_set.page_data(j, i) == prev.page_data(j, i));
                    }
                }
                assert forall|p: u64| allocator.in_use(p) <==> (old(allocator).in_use(p) || memory_set.frames().contains(p)) by {
                    if memory_set.area(m).frames().contains(p) {
                        assert(memory_set.frames().contains(p));
                    }
                }
            }
            k = k + 1;
        }
        proof {
            assert(all.subrange(0, n as int) =~= all);
        }
        memory_set
    }
}

impl MapArea {
    /// Sets byte `off` of the frame in slot `i` to `b`.
    fn set_byte(&mut self, i: usize, off: usize, b: u8)
        requires
            old(self).wf(),
            old(self).slot(i as int) is Some,
            off < PAGE_SIZE,
        ensures
            final(self).wf(),
            final(self).info() == old(self).info(),
            final(self).start() == old(self).start(),
            final(self).end() == old(self).end(),
            final(self).typ() == old(self).typ(),
            final(self).perm() == old(self).perm(),
            forall|j: int| #[trigger] final(self).slot_ppn(j) == old(self).slot_ppn(j),
            forall|j: int| j != i ==> #[trigger] final(self).slot(j) == old(self).slot(j),
            final(self).slot(i as int) is Some,
            final(self).slot(i as int)->0.data@ == old(self).slot(i as int)->0.data@.update(off as int, b),
    {
        let ghost prev_frames = self.data_frames@;
        let slot = self.data_frames.remove(i);
        let mut frame = match slot {
            Some(f) => f,
            None => {
                proof { assert(false); }
                return;
            }
        };
        frame.data.set(off, b);
        self.data_frames.insert(i, Some(frame));
        proof {
            assert(self.data_frames@ =~= prev_frames.update(i as int, Some(frame)));
            assert forall|j: int| #[trigger] self.slot_ppn(j) == old(self).slot_ppn(j) by {}
        }
    }
}

impl MemorySet {
    /// Whether page `vpn` lies in a framed area.
    pub open spec fn framed_page(&self, vpn: int) -> bool {
        exists|k: int| 0 <= k < self.infos().len() && #[trigger] self.infos()[k].start <= vpn < self.infos()[k].end
            && self.infos()[k].map_type == MapType::Framed
    }

    /// The byte at virtual address `va`, when its page lies in a framed area.
    pub closed spec fn user_byte(&self, va: int) -> Option<u8> {
        let vpn = va / (PAGE_SIZE as int);
        if self.framed_page(vpn) {
            let k = choose|k: int| 0 <= k < self.infos().len() && #[trigger] self.infos()[k].start <= vpn < self.infos()[k].end
                && self.infos()[k].map_type == MapType::Framed;
            Some(self.areas@[k].slot(vpn - self.areas@[k].start())->0.data@[va % (PAGE_SIZE as int)])
        } else {
            None
        }
    }

    /// A byte whose page lies in a framed area can be read.
    pub proof fn lemma_framed_byte(&self, va: int)
        requires
            self.framed_page(va / (PAGE_SIZE as int)),
        ensures
            self.user_byte(va) is Some,
    {
    }

    /// The bytes of `[start, start + len)`, when every one of them is
    /// readable.
    pub open spec fn user_bytes(&self, start: int, len: int) -> Option<Seq<u8>> {
        if forall|i: int| 0 <= i < len ==> #[trigger] self.user_byte(start + i) is Some {
            Some(Seq::new(len as nat, |i: int| self.user_byte(start + i)->0))
        } else {
            None
        }
    }

    proof fn lemma_area_unique(&self, k: int, l: int, vpn: int)
        requires
            self.wf(),
            0 <= k < self.infos().len(),
            0 <= l < self.infos().len(),
            self.infos()[k].start <= vpn < self.infos()[k].end,
            self.infos()[l].start <= vpn < self.infos()[l].end,
        ensures
            k == l,
    {
        self.areas@[k].lemma_info();
        self.areas@[l].lemma_info();
        if k < l {
            assert(!pages_meet(self.areas@[k].start(), self.areas@[k].end(), self.areas@[l].start(), self.areas@[l].end()));
        } else if l < k {
            assert(!pages_meet(self.areas@[l].start(), self.areas@[l].end(), self.areas@[k].start(), self.areas@[k].end()));
        }
    }

    /// The index of the area holding page `vpn`, if any.
    fn find_area(&self, vpn: u64) -> (r: Option<usize>)
        requires
            self.wf(),
        ensures
            r matches Some(k) ==> k < self.infos().len() && self.infos()[k as int].start <= vpn < self.infos()[k as int].end,
            r is None ==> forall|k: int| 0 <= k < self.infos().len() ==> !(#[trigger] self.infos()[k].start <= vpn < self.infos()[k].end),
    {
        let mut k: usize = 0;
        while k < self.areas.len()
            invariant
                k <= self.areas@.len(),
                forall|j: int| 0 <= j < k ==> !(#[trigger] self.infos()[j].start <= vpn < self.infos()[j].end),
            decreases self.areas@.len() - k,
        {
            let info = self.areas[k].get_info();
            assert(self.infos()[k as int] == info);
            if info.start <= vpn && vpn < info.end {
                return Some(k);
            }
            k = k + 1;
        }
        None
    }

    /// The byte at `va`, when its page lies in a framed area.
    pub fn read_byte(&self, va: u64) -> (r: Option<u8>)
        requires
            self.wf(),
        ensures
            r == self.user_byte(va as int),
    {
        let vpn = va / PAGE_SIZE as u64;
        match self.find_area(vpn) {
            None => {
                proof {
                    if self.framed_page(vpn as int) {
                        let k = choose|k: int| 0 <= k < self.infos().len() && #[trigger] self.infos()[k].start <= vpn < self.infos()[k].end
                            && self.infos()[k].map_type == MapType::Framed;
                    }
                }
                None
            }
            Some(k) => {
                let area = &self.areas[k];
                proof {
                    area.lemma_info();
                    assert(self.infos()[k as int] == area.info());
                    assert(self.area_fits(*area));
                }
                if area.map_type != MapType::Framed {
                    proof {
                        if self.framed_page(vpn as int) {
                            let l = choose|l: int| 0 <= l < self.infos().len() && #[trigger] self.infos()[l].start <= vpn < self.infos()[l].end
                                && self.infos()[l].map_type == MapType::Framed;
                            self.lemma_area_unique(k as int, l, vpn as int);
                        }
                    }
                    return None;
                }
                let i = (vpn - area.vpn_range.start.0) as usize;
                let off = (va % PAGE_SIZE as u64) as usize;
                proof {
                    assert(area.data_frames@[i as int] is Some);
                    assert(self.framed_page(vpn as int));
                    let l = choose|l: int| 0 <= l < self.infos().len() && #[trigger] self.infos()[l].start <= vpn < self.infos()[l].end
                        && self.infos()[l].map_type == MapType::Framed;
                    self.lemma_area_unique(k as int, l, vpn as int);
                }
                match &area.data_frames[i] {
                    Some(f) => Some(f.data[off]),
                    None => None,
                }
            }
        }
    }

    /// The bytes of `[start, start + len)`, when every one of them lies in a
    /// framed area.
    pub fn read_user_bytes(&self, start: u64, len: usize) -> (r: Option<Vec<u8>>)
        requires
            self.wf(),
            start + len <= u64::MAX,
        ensures
            r is Some <==> self.user_bytes(start as int, len as int) is Some,
            r matches Some(v) ==> v@ == self.user_bytes(start as int, len as int)->0,
    {
        let mut out: Vec<u8> = Vec::new();
        let mut i: usize = 0;
        while i < len
            invariant
                self.wf(),
                start + len <= u64::MAX,
                i <= len,
                out@.len() == i,
                forall|j: int| 0 <= j < i ==> #[trigger] self.user_byte(start + j) == Some(out@[j]),
            decreases len - i,
        {
            match self.read_byte(start + i as u64) {
                Some(b) => {
                    out.push(b);
                }
                None => {
                    proof {
                        assert(self.user_byte(start + i) is None);
                    }
                    return None;
                }
            }
            i = i + 1;
        }
        proof {
            assert forall|j: int| 0 <= j < len implies #[trigger] self.user_byte(start + j) is Some by {}
            assert(out@ =~= self.user_bytes(start as int, len as int)->0);
        }
        Some(out)
    }
}

impl MemorySet {
    /// Changing the bytes in the frames of one area keeps the address space
    /// well formed, its areas, table and frames.
    proof fn lemma_bytes_only(old_ms: &MemorySet, new_ms: &MemorySet, k: int)
        requires
            old_ms.wf(),
            0 <= k < old_ms.areas@.len(),
            new_ms.page_table == old_ms.page_table,
            new_ms.areas@.len() == old_ms.areas@.len(),
            forall|j: int| 0 <= j < old_ms.areas@.len() && j != k ==> #[trigger] new_ms.areas@[j] == old_ms.areas@[j],
            new_ms.areas@[k].wf(),
            new_ms.areas@[k].info() == old_ms.areas@[k].info(),
            forall|i: int| #[trigger] new_ms.areas@[k].slot_ppn(i) == old_ms.areas@[k].slot_ppn(i),
        ensures
            new_ms.wf(),
            new_ms.infos() == old_ms.infos(),
            new_ms.frames() == old_ms.frames(),
            new_ms.root() == old_ms.root(),
            new_ms.pt() == old_ms.pt(),
            forall|j: int, p: u64| #[trigger] new_ms.area_holds(j, p) == old_ms.area_holds(j, p),
    {
        let a = old_ms.areas@[k];
        let b = new_ms.areas@[k];
        a.lemma_info();
        b.lemma_info();
        assert(old_ms.area_fits(a));
        assert forall|p: u64| b.frames().contains(p) <==> a.frames().contains(p) by {
            if b.frames().contains(p) {
                let i = choose|i: int| #[trigger] b.slot_ppn(i) == Some(p);
                assert(a.slot_ppn(i) == Some(p));
            }
            if a.frames().contains(p) {
                let i = choose|i: int| #[trigger] a.slot_ppn(i) == Some(p);
                assert(b.slot_ppn(i) == Some(p));
            }
        }
        assert(b.frames() =~= a.frames());
        if b.typ() == MapType::Framed {
            assert forall|i: int| 0 <= i < b.data_frames@.len() implies #[trigger] b.data_frames@[i] is Some by {
                assert(a.data_frames@[i] is Some);
                assert(a.slot_ppn(i) is Some);
                assert(b.slot_ppn(i) is Some);
            }
        }
        assert forall|i: int, j: int|
            #![trigger b.slot_ppn(i), b.slot_ppn(j)]
            b.slot_ppn(i) is Some && b.slot_ppn(i) == b.slot_ppn(j) implies i == j by {
            assert(a.slot_ppn(i) == b.slot_ppn(i));
            assert(a.slot_ppn(j) == b.slot_ppn(j));
        }
        assert forall|v: u64| b.start() <= v < b.end() implies #[trigger] new_ms.page_table@.contains_key(v)
            && new_ms.page_table@[v] == b.leaf(v) by {
            assert(old_ms.page_table@.contains_key(v));
            if a.typ() == MapType::Framed {
                assert(a.slot_ppn(v - a.start()) == b.slot_ppn(v - b.start()));
                assert(a.data_frames@[v - a.start()] is Some);
            }
        }
        assert(new_ms.area_fits(b));
        assert forall|j: int| 0 <= j < new_ms.areas@.len() implies new_ms.area_fits(#[trigger] new_ms.areas@[j]) by {
            if j != k {
                assert(old_ms.area_fits(old_ms.areas@[j]));
            }
        }
        assert forall|j: int, p: u64| #[trigger] new_ms.area_holds(j, p) == old_ms.area_holds(j, p) by {
            if j != k && 0 <= j < new_ms.areas@.len() {
                assert(new_ms.areas@[j] == old_ms.areas@[j]);
            }
        }
        assert forall|j: int, l: int| 0 <= j < l < new_ms.areas@.len() implies
            !pages_meet((#[trigger] new_ms.areas@[j]).start(), new_ms.areas@[j].end(),
                (#[trigger] new_ms.areas@[l]).start(), new_ms.areas@[l].end()) by {
            assert(!pages_meet(old_ms.areas@[j].start(), old_ms.areas@[j].end(), old_ms.areas@[l].start(), old_ms.areas@[l].end()));
        }
        assert forall|j: int, l: int, p: u64| j != l && #[trigger] new_ms.area_holds(j, p) implies !#[trigger] new_ms.area_holds(l, p) by {
            assert(old_ms.area_holds(j, p));
        }
        assert forall|v: u64| #[trigger] new_ms.page_table@.contains_key(v) implies v == TRAMPOLINE_VPN || exists|j: int|
            0 <= j < new_ms.areas@.len() && #[trigger] new_ms.areas@[j].start() <= v < new_ms.areas@[j].end() by {
            if v != TRAMPOLINE_VPN {
                let j = choose|j: int| 0 <= j < old_ms.areas@.len() && #[trigger] old_ms.areas@[j].start() <= v < old_ms.areas@[j].end();
                assert(new_ms.areas@[j].start() <= v < new_ms.areas@[j].end());
            }
        }
        assert(new_ms.infos() =~= old_ms.infos()) by {
            assert forall|j: int| 0 <= j < new_ms.areas@.len() implies #[trigger] new_ms.infos()[j] == old_ms.infos()[j] by {}
        }
        assert forall|p: u64| new_ms.frames().contains(p) <==> old_ms.frames().contains(p) by {
            if new_ms.frames().contains(p) && p != new_ms.root() {
                let j = choose|j: int| #[trigger] new_ms.area_holds(j, p);
                assert(old_ms.area_holds(j, p));
            }
            if old_ms.frames().contains(p) && p != old_ms.root() {
                let j = choose|j: int| #[trigger] old_ms.area_holds(j, p);
                assert(new_ms.area_holds(j, p));
            }
        }
        assert(new_ms.frames() =~= old_ms.frames());
    }

    /// Writes `b` at `va` when its page lies in a framed area; answers
    /// whether it did.
    pub fn write_byte(&mut self, va: u64, b: u8) -> (r: bool)
        requires
            old(self).wf(),
        ensures
            final(self).wf(),
            r == old(self).user_byte(va as int) is Some,
            final(self).infos() == old(self).infos(),
            final(self).frames() == old(self).frames(),
            final(self).root() == old(self).root(),
            final(self).pt() == old(self).pt(),
            forall|x: int| #[trigger] final(self).user_byte(x) == (if r && x == va { Some(b) } else { old(self).user_byte(x) }),
            forall|j: int, i: int| 0 <= j < old(self).infos().len()
                && !(old(self).infos()[j].start <= va as int / (PAGE_SIZE as int) < old(self).infos()[j].end)
                ==> #[trigger] final(self).page_data(j, i) == old(self).page_data(j, i),
    {
        let vpn = va / PAGE_SIZE as u64;
        let k = match self.find_area(vpn) {
            None => {
                proof {
                    if self.framed_page(vpn as int) {
                        let k = choose|k: int| 0 <= k < self.infos().len() && #[trigger] self.infos()[k].start <= vpn < self.infos()[k].end
                            && self.infos()[k].map_type == MapType::Framed;
                    }
                }
                return false;
            }
            Some(k) => k,
        };
        proof {
            self.areas@[k as int].lemma_info();
            assert(self.infos()[k as int] == self.areas@[k as int].info());
            assert(self.area_fits(self.areas@[k as int]));
        }
        if self.areas[k].map_type() != MapType::Framed {
            proof {
                if self.framed_page(vpn as int) {
                    let l = choose|l: int| 0 <= l < self.infos().len() && #[trigger] self.infos()[l].start <= vpn < self.infos()[l].end
                        && self.infos()[l].map_type == MapType::Framed;
                    self.lemma_area_unique(k as int, l, vpn as int);
                }
            }
            return false;
        }
        let i = (vpn - self.areas[k].vpn_range().start.0) as usize;
        let off = (va % PAGE_SIZE as u64) as usize;
        let ghost prev = *self;
        proof {
            assert(self.areas@[k as int].data_frames@[i as int] is Some);
            assert(self.framed_page(vpn as int));
            let l = choose|l: int| 0 <= l < self.infos().len() && #[trigger] self.infos()[l].start <= vpn < self.infos()[l].end
                && self.infos()[l].map_type == MapType::Framed;
            self.lemma_area_unique(k as int, l, vpn as int);
        }
        self.areas[k].set_byte(i, off, b);
        proof {
            Self::lemma_bytes_only(&prev, self, k as int);
            assert forall|x: int| #[trigger] self.user_byte(x) == (if x == va { Some(b) } else { prev.user_byte(x) }) by {
                let xv = x / (PAGE_SIZE as int);
                if prev.framed_page(xv) {
                    let l = choose|l: int| 0 <= l < prev.infos().len() && #[trigger] prev.infos()[l].start <= xv < prev.infos()[l].end
                        && prev.infos()[l].map_type == MapType::Framed;
                    assert(self.framed_page(xv));
                    let l2 = choose|l2: int| 0 <= l2 < self.infos().len() && #[trigger] self.infos()[l2].start <= xv < self.infos()[l2].end
                        && self.infos()[l2].map_type == MapType::Framed;
                    prev.lemma_area_unique(l, l2, xv);
                    prev.areas@[l].lemma_info();
                    if l != k as int {
                        assert(self.areas@[l] == prev.areas@[l]);
                    } else if xv != vpn as int {
                        assert(self.areas@[l].slot(xv - self.areas@[l].start()) == prev.areas@[l].slot(xv - prev.areas@[l].start()));
                    } else {
                        assert(x % (PAGE_SIZE as int) != off as int || x == va);
                    }
                } else {
                    assert(!self.framed_page(xv));
                }
            }
            assert forall|j: int, i2: int| 0 <= j < prev.infos().len()
                && !(prev.infos()[j].start <= va as int / (PAGE_SIZE as int) < prev.infos()[j].end)
                implies #[trigger] self.page_data(j, i2) == prev.page_data(j, i2) by {
                if j == k as int {
                    assert(prev.infos()[j].start <= vpn < prev.infos()[j].end);
                } else {
                    assert(self.areas@[j] == prev.areas@[j]);
                }
            }
        }
        true
    }

    /// Writes `data` at `[start, start + len)` when every byte there lies in
    /// a framed area; else changes nothing. Answers whether it wrote.
    pub fn write_user_bytes(&mut self, start: u64, data: &[u8]) -> (r: bool)
        requires
            old(self).wf(),
            start + data@.len() <= u64::MAX,
        ensures
            final(self).wf(),
            r == (old(self).user_bytes(start as int, data@.len() as int) is Some),
            final(self).infos() == old(self).infos(),
            final(self).frames() == old(self).frames(),
            final(self).root() == old(self).root(),
            final(self).pt() == old(self).pt(),
            forall|x: int| #[trigger] final(self).user_byte(x) == (if r && start <= x < start + data@.len() {
                Some(data@[x - start])
            } else {
                old(self).user_byte(x)
            }),
            r ==> final(self).user_bytes(start as int, data@.len() as int) == Some(data@),
            forall|j: int, i: int| 0 <= j < old(self).infos().len()
                && (old(self).infos()[j].end * PAGE_SIZE <= start || start + data@.len() <= old(self).infos()[j].start * PAGE_SIZE)
                ==> #[trigger] final(self).page_data(j, i) == old(self).page_data(j, i),
    {
        let len = data.len();
        let mut i: usize = 0;
        while i < len
            invariant
                self.wf(),
                start + len <= u64::MAX,
                len == data@.len(),
                i <= len,
                forall|j: int| 0 <= j < i ==> #[trigger] self.user_byte(start + j) is Some,
            decreases len - i,
        {
            if self.read_byte(start + i as u64).is_none() {
                proof {
                    assert(self.user_byte(start + i) is None);
                }
                return false;
            }
            i = i + 1;
        }
        proof {
            assert forall|j: int| 0 <= j < len implies #[trigger] self.user_byte(start + j) is Some by {}
        }
        let mut i: usize = 0;
        while i < len
            invariant
                self.wf(),
                start + len <= u64::MAX,
                len == data@.len(),
                i <= len,
                self.infos() == old(self).infos(),
                self.frames() == old(self).frames(),
                self.root() == old(self).root(),
                self.pt() == old(self).pt(),
                forall|j: int| 0 <= j < len ==> #[trigger] old(self).user_byte(start + j) is Some,
                forall|x: int| #[trigger] self.user_byte(x) == (if start <= x < start + i { Some(data@[x - start]) } else { old(self).user_byte(x) }),
                forall|j: int, i2: int| 0 <= j < old(self).infos().len()
                    && (old(self).infos()[j].end * PAGE_SIZE <= start || start + len <= old(self).infos()[j].start * PAGE_SIZE)
                    ==> #[trigger] self.page_data(j, i2) == old(self).page_data(j, i2),
            decreases len - i,
        {
            let ghost prev = *self;
            proof {
                assert(prev.user_byte(start + i) == old(self).user_byte(start + i));
            }
            let ok = self.write_byte(start + i as u64, data[i]);
            proof {
                assert forall|j: int, i2: int| 0 <= j < old(self).infos().len()
                    && (old(self).infos()[j].end * PAGE_SIZE <= start || start + len <= old(self).infos()[j].start * PAGE_SIZE)
                    implies #[trigger] self.page_data(j, i2) == old(self).page_data(j, i2) by {
                    let x = start + i;
                    let e = old(self).infos()[j].end as int;
                    let st = old(self).infos()[j].start as int;
                    assert(!(st <= x / 4096 < e)) by (nonlinear_arith)
                        requires e * 4096 <= start || start + len <= st * 4096, start <= x < start + len;
                    assert(prev.page_data(j, i2) == old(self).page_data(j, i2));
                }
                assert forall|x: int| #[trigger] self.user_byte(x) == (if start <= x < start + i + 1 { Some(data@[x - start]) } else { old(self).user_byte(x) }) by {
                    assert(self.user_byte(x) == (if x == start + i { Some(data@[i as int]) } else { prev.user_byte(x) }));
                }
            }
            i = i + 1;
        }
        proof {
            let n = data@.len() as int;
            assert forall|j: int| 0 <= j < n implies #[trigger] self.user_byte(start + j) is Some by {}
            assert(self.user_bytes(start as int, n)->0 =~= data@);
        }
        true
    }
}

impl MemorySet {
    /// The bytes from `va` up to the first zero byte: the string there, when
    /// all of it and its terminator are readable.
    pub open spec fn user_str_at(&self, va: int, n: int) -> bool {
        &&& forall|i: int| 0 <= i <= n ==> #[trigger] self.user_byte(va + i) is Some
        &&& forall|i: int| 0 <= i < n ==> #[trigger] self.user_byte(va + i) != Some(0u8)
        &&& self.user_byte(va + n) == Some(0u8)
    }

    /// The zero-terminated string at `va`, without its terminator, when all
    /// of it and its terminator are readable.
    pub open spec fn user_str(&self, va: int) -> Option<Seq<u8>> {
        if exists|n: int| 0 <= n && #[trigger] self.user_str_at(va, n) {
            let n = choose|n: int| 0 <= n && #[trigger] self.user_str_at(va, n);
            Some(Seq::new(n as nat, |i: int| self.user_byte(va + i)->0))
        } else {
            None
        }
    }

    /// A string has one length: that of the bytes before its first zero.
    pub proof fn lemma_user_str_at_unique(&self, va: int, n: int, m: int)
        requires
            0 <= n,
            0 <= m,
            self.user_str_at(va, n),
            self.user_str_at(va, m),
        ensures
            n == m,
    {
        if n < m {
            assert(self.user_byte(va + n) != Some(0u8));
        } else if m < n {
            assert(self.user_byte(va + m) != Some(0u8));
        }
    }

    /// The zero-terminated string at `va`, without its terminator; `None`
    /// when a byte before the terminator cannot be read.
    pub fn translated_str(&self, va: u64) -> (r: Option<Vec<u8>>)
        requires
            self.wf(),
        ensures
            r matches Some(v) ==> self.user_str_at(va as int, v@.len() as int)
                && v@ == Seq::new(v@.len(), |i: int| self.user_byte(va + i)->0),
            r is None ==> !exists|n: int| 0 <= n && #[trigger] self.user_str_at(va as int, n),
            r matches Some(v) ==> self.user_str(va as int) == Some(v@),
            r is None ==> self.user_str(va as int) is None,
    {
        let mut out: Vec<u8> = Vec::new();
        let mut cur: u64 = va;
        loop
            invariant
                self.wf(),
                cur == va + out@.len(),
                forall|i: int| 0 <= i < out@.len() ==> #[trigger] self.user_byte(va + i) == Some(out@[i]),
                forall|i: int| 0 <= i < out@.len() ==> out@[i] != 0u8,
            decreases u64::MAX - cur,
        {
            match self.read_byte(cur) {
                None => {
                    proof {
                        assert forall|n: int| 0 <= n implies !#[trigger] self.user_str_at(va as int, n) by {
                            if self.user_str_at(va as int, n) {
                                if n < out@.len() {
                                    assert(self.user_byte(va + n) == Some(out@[n]));
                                } else {
                                    assert(self.user_byte(va + out@.len()) is Some);
                                }
                            }
                        }
                    }
                    return None;
                }
                Some(b) => {
                    if b == 0 {
                        proof {
                            assert(out@ =~= Seq::new(out@.len(), |i: int| self.user_byte(va + i)->0));
                            let n = out@.len() as int;
                            assert(self.user_str_at(va as int, n));
                            let m = choose|m: int| 0 <= m && #[trigger] self.user_str_at(va as int, m);
                            self.lemma_user_str_at_unique(va as int, n, m);
                        }
                        return Some(out);
                    }
                    if cur == u64::MAX {
                        proof {
                            assert forall|n: int| 0 <= n implies !#[trigger] self.user_str_at(va as int, n) by {
                                if self.user_str_at(va as int, n) {
                                    if n <= out@.len() {
                                        assert(self.user_byte(va + n) == Some(out@[n]) || n == out@.len());
                                    } else {
                                        assert(va + n > u64::MAX);
                                        assert(self.user_byte(va + n) is None) by {
                                            assert(!self.framed_page((va + n) / (PAGE_SIZE as int))) by {
                                                if self.framed_page((va + n) / (PAGE_SIZE as int)) {
                                                    let k = choose|k: int| 0 <= k < self.infos().len()
                                                        && #[trigger] self.infos()[k].start <= (va + n) / (PAGE_SIZE as int) < self.infos()[k].end
                                                        && self.infos()[k].map_type == MapType::Framed;
                                                    self.areas@[k].lemma_info();
                                                    assert(self.area_fits(self.areas@[k]));
                                                }
                                            }
                                        }
                                    }
                                }
                            }
                        }
                        return None;
                    }
                    out.push(b);
                    cur = cur + 1;
                }
            }
        }
    }
}

} // verus!
