use vstd::prelude::*;
use crate::memory::address::{PhysPageNum, VirtPageNum};
use crate::memory::frame_allocator::{FrameTracker, StackFrameAllocator, frame_alloc};

verus! {

/// Page-table entry flag bits (Sv39).
pub const PTE_V: u8 = 1;
pub const PTE_R: u8 = 2;
pub const PTE_W: u8 = 4;
pub const PTE_X: u8 = 8;
pub const PTE_U: u8 = 16;
pub const PTE_G: u8 = 32;
pub const PTE_A: u8 = 64;
pub const PTE_D: u8 = 128;

/// A leaf entry: the frame a page maps to and its flag bits.
#[derive(Clone, Copy, Debug, PartialEq, Eq, Structural)]
pub struct PageTableEntry {
    pub ppn: PhysPageNum,
    pub flags: u8,
}

impl PageTableEntry {
    pub fn new(ppn: PhysPageNum, flags: u8) -> (r: PageTableEntry)
        ensures
            r.ppn == ppn,
            r.flags == flags,
    {
        PageTableEntry { ppn, flags }
    }

    pub fn empty() -> (r: PageTableEntry)
        ensures
            r.ppn.0 == 0,
            r.flags == 0,
    {
        PageTableEntry { ppn: PhysPageNum(0), flags: 0 }
    }

    pub fn ppn(&self) -> (r: PhysPageNum)
        ensures
            r == self.ppn,
    {
        self.ppn
    }

    pub fn flags(&self) -> (r: u8)
        ensures
            r == self.flags,
    {
        self.flags
    }

    pub open spec fn has_flag(self, bit: u8) -> bool {
        self.flags & bit != 0
    }

    pub fn is_valid(&self) -> (r: bool)
        ensures
            r == self.has_flag(PTE_V),
    {
        self.flags & PTE_V != 0
    }

    pub fn readable(&self) -> (r: bool)
        ensures
            r == self.has_flag(PTE_R),
    {
        self.flags & PTE_R != 0
    }

    pub fn writable(&self) -> (r: bool)
        ensures
            r == self.has_flag(PTE_W),
    {
        self.flags & PTE_W != 0
    }

    pub fn executable(&self) -> (r: bool)
        ensures
            r == self.has_flag(PTE_X),
    {
        self.flags & PTE_X != 0
    }

    /// Whether user mode may touch the page.
    pub fn u_able(&self) -> (r: bool)
        ensures
            r == self.has_flag(PTE_U),
    {
        self.flags & PTE_U != 0
    }
}

/// The satp value that selects Sv39 translation with the given root frame.
pub open spec fn token_of(root: u64) -> u64 {
    (0x8000_0000_0000_0000u64 | root) as u64
}

/// The leaf mappings of an address space, with the frame of its root table.
pub struct PageTable {
    root_ppn: PhysPageNum,
    frames: Vec<FrameTracker>,
    entries: Vec<(u64, PageTableEntry)>,
}

impl PageTable {
    /// No page appears twice.
    pub closed spec fn wf(&self) -> bool {
        forall|i: int, j: int|
            0 <= i < j < self.entries@.len() ==> #[trigger] self.entries@[i].0 != #[trigger] self.entries@[j].0
    }

    pub closed spec fn has(&self, vpn: u64) -> bool {
        exists|i: int| 0 <= i < self.entries@.len() && #[trigger] self.entries@[i].0 == vpn
    }

    pub closed spec fn entry(&self, vpn: u64) -> PageTableEntry {
        self.entries@[choose|i: int| 0 <= i < self.entries@.len() && #[trigger] self.entries@[i].0 == vpn].1
    }

    /// Page number to leaf entry.
    pub closed spec fn view(&self) -> Map<u64, PageTableEntry> {
        Map::new(|k: u64| self.has(k), |k: u64| self.entry(k))
    }

    pub closed spec fn root(&self) -> u64 {
        self.root_ppn.0
    }

    proof fn lemma_entry_at(&self, i: int)
        requires
            self.wf(),
            0 <= i < self.entries@.len(),
        ensures
            self.has(self.entries@[i].0),
            self.entry(self.entries@[i].0) == self.entries@[i].1,
    {
        let k = self.entries@[i].0;
        let j = choose|j: int| 0 <= j < self.entries@.len() && #[trigger] self.entries@[j].0 == k;
        assert(self.entries@[j].0 == k);
        if i < j {
            assert(self.entries@[i].0 != self.entries@[j].0);
        } else if j < i {
            assert(self.entries@[j].0 != self.entries@[i].0);
        }
    }

    /// An empty table whose root frame comes from `allocator`.
    pub fn new(allocator: &mut StackFrameAllocator) -> (r: PageTable)
        requires
            old(allocator).wf(),
            old(allocator).free_count() > 0,
        ensures
            r.wf(),
            r@ == Map::<u64, PageTableEntry>::empty(),
            Some(r.root()) == old(allocator).next_frame(),
            final(allocator).wf(),
            final(allocator).in_use(r.root()),
            !old(allocator).in_use(r.root()),
            final(allocator).free_count() + 1 == old(allocator).free_count(),
            forall|p: u64| p != r.root() ==> (final(allocator).in_use(p) <==> old(allocator).in_use(p)),
    {
        let frame = frame_alloc(allocator);
        let frame = match frame {
            Some(f) => f,
            None => {
                proof { assert(false); }
                FrameTracker { ppn: PhysPageNum(0), data: Vec::new() }
            }
        };
        let root_ppn = frame.ppn;
        let mut frames = Vec::new();
        frames.push(frame);
        let r = PageTable { root_ppn, frames, entries: Vec::new() };
        assert(r@ =~= Map::<u64, PageTableEntry>::empty());
        r
    }

    /// The frame of the root table.
    pub fn root_ppn(&self) -> (r: PhysPageNum)
        ensures
            r.0 == self.root(),
    {
        self.root_ppn
    }

    /// The satp token of this table.
    pub fn token(&self) -> (r: u64)
        ensures
            r == token_of(self.root()),
    {
        0x8000_0000_0000_0000u64 | self.root_ppn.0
    }

    /// Maps page `vpn` to frame `ppn` with `flags`, marked valid.
    pub fn map(&mut self, vpn: VirtPageNum, ppn: PhysPageNum, flags: u8)
        requires
            old(self).wf(),
            !old(self)@.contains_key(vpn.0),
        ensures
            final(self).wf(),
            final(self).root() == old(self).root(),
            final(self)@ == old(self)@.insert(vpn.0, PageTableEntry { ppn, flags: flags | PTE_V }),
    {
        let pte = PageTableEntry::new(ppn, flags | PTE_V);
        let ghost old_entries = self.entries@;
        self.entries.push((vpn.0, pte));
        proof {
            assert forall|i: int, j: int|
                0 <= i < j < self.entries@.len() implies #[trigger] self.entries@[i].0 != #[trigger] self.entries@[j].0 by {
                if j == self.entries@.len() - 1 {
                    assert(old(self).entries@[i].0 == self.entries@[i].0);
                    if self.entries@[i].0 == vpn.0 {
                        assert(old(self).has(vpn.0));
                    }
                } else {
                    assert(old(self).entries@[i] == self.entries@[i]);
                    assert(old(self).entries@[j] == self.entries@[j]);
                }
            }
            let m = old(self)@.insert(vpn.0, pte);
            assert forall|k: u64| #[trigger] self@.contains_key(k) <==> m.contains_key(k) by {
                if self.has(k) {
                    let i = choose|i: int| 0 <= i < self.entries@.len() && #[trigger] self.entries@[i].0 == k;
                    if i < old_entries.len() {
                        assert(old(self).entries@[i].0 == k);
                    }
                }
                if old(self).has(k) {
                    let i = choose|i: int| 0 <= i < old_entries.len() && #[trigger] old(self).entries@[i].0 == k;
                    assert(self.entries@[i].0 == k);
                }
                if k == vpn.0 {
                    assert(self.entries@[old_entries.len() as int].0 == k);
                }
            }
            assert forall|k: u64| #[trigger] self@.contains_key(k) implies self@[k] == m[k] by {
                let i = choose|i: int| 0 <= i < self.entries@.len() && #[trigger] self.entries@[i].0 == k;
                self.lemma_entry_at(i);
                if i < old_entries.len() {
                    assert(old(self).entries@[i] == self.entries@[i]);
                    old(self).lemma_entry_at(i);
                }
            }
            assert(self@ =~= m);
        }
    }

    /// Removes the mapping of page `vpn`.
    pub fn unmap(&mut self, vpn: VirtPageNum)
        requires
            old(self).wf(),
            old(self)@.contains_key(vpn.0),
        ensures
            final(self).wf(),
            final(self).root() == old(self).root(),
            final(self)@ == old(self)@.remove(vpn.0),
    {
        let mut i: usize = 0;
        while i < self.entries.len() && self.entries[i].0 != vpn.0
            invariant
                self.wf(),
                *self == *old(self),
                i <= self.entries@.len(),
                forall|j: int| 0 <= j < i ==> self.entries@[j].0 != vpn.0,
            decreases self.entries@.len() - i,
        {
            i = i + 1;
        }
        if i == self.entries.len() {
            proof {
                let j = choose|j: int| 0 <= j < self.entries@.len() && #[trigger] self.entries@[j].0 == vpn.0;
                assert(false);
            }
            return;
        }
        let ghost old_entries = self.entries@;
        self.entries.remove(i);
        proof {
            assert(old_entries[i as int].0 == vpn.0);
            assert(self.entries@ == old_entries.remove(i as int));
            assert forall|a: int, b: int|
                0 <= a < b < self.entries@.len() implies #[trigger] self.entries@[a].0 != #[trigger] self.entries@[b].0 by {
                let a2 = if a < i { a } else { a + 1 };
                let b2 = if b < i { b } else { b + 1 };
                assert(old_entries[a2] == self.entries@[a]);
                assert(old_entries[b2] == self.entries@[b]);
                assert(old(self).entries@[a2].0 != old(self).entries@[b2].0);
            }
            let m = old(self)@.remove(vpn.0);
            assert forall|k: u64| #[trigger] self@.contains_key(k) <==> m.contains_key(k) by {
                if self.has(k) {
                    let a = choose|a: int| 0 <= a < self.entries@.len() && #[trigger] self.entries@[a].0 == k;
                    let a2 = if a < i { a } else { a + 1 };
                    assert(old(self).entries@[a2].0 == k);
                    assert(a2 != i);
                }
                if old(self).has(k) && k != vpn.0 {
                    let a = choose|a: int| 0 <= a < old_entries.len() && #[trigger] old(self).entries@[a].0 == k;
                    assert(a != i);
                    if a < i {
                        assert(self.entries@[a].0 == k);
                    } else {
                        assert(self.entries@[a - 1].0 == k);
                    }
                }
            }
            assert forall|k: u64| #[trigger] self@.contains_key(k) implies self@[k] == m[k] by {
                let a = choose|a: int| 0 <= a < self.entries@.len() && #[trigger] self.entries@[a].0 == k;
                self.lemma_entry_at(a);
                let a2 = if a < i { a } else { a + 1 };
                assert(old(self).entries@[a2] == self.entries@[a]);
                old(self).lemma_entry_at(a2);
            }
            assert(self@ =~= m);
        }
    }

    /// The entry of page `vpn`, if it is mapped.
    pub fn translate(&self, vpn: VirtPageNum) -> (r: Option<PageTableEntry>)
        requires
            self.wf(),
        ensures
            r == (if self@.contains_key(vpn.0) { Some(self@[vpn.0]) } else { None::<PageTableEntry> }),
    {
        let mut i: usize = 0;
        while i < self.entries.len()
            invariant
                self.wf(),
                i <= self.entries@.len(),
                forall|j: int| 0 <= j < i ==> self.entries@[j].0 != vpn.0,
            decreases self.entries@.len() - i,
        {
            if self.entries[i].0 == vpn.0 {
                proof { self.lemma_entry_at(i as int); }
                return Some(self.entries[i].1);
            }
            i = i + 1;
        }
        None
    }

    /// The mapped pages, each once.
    pub fn mapped_pages(&self) -> (r: Vec<u64>)
        requires
            self.wf(),
        ensures
            r@.no_duplicates(),
            forall|v: u64| #[trigger] r@.contains(v) <==> self@.contains_key(v),
    {
        let mut r: Vec<u64> = Vec::new();
        let mut i: usize = 0;
        while i < self.entries.len()
            invariant
                self.wf(),
                i <= self.entries@.len(),
                r@.len() == i,
                forall|k: int| 0 <= k < i ==> #[trigger] r@[k] == self.entries@[k].0,
            decreases self.entries@.len() - i,
        {
            r.push(self.entries[i].0);
            i = i + 1;
        }
        proof {
            assert forall|v: u64| #[trigger] r@.contains(v) <==> self@.contains_key(v) by {
                if r@.contains(v) {
                    let k = choose|k: int| 0 <= k < r@.len() && r@[k] == v;
                    assert(self.entries@[k].0 == v);
                }
                if self.has(v) {
                    let k = choose|k: int| 0 <= k < self.entries@.len() && #[trigger] self.entries@[k].0 == v;
                    assert(r@[k] == v);
                }
            }
            assert forall|a: int, b: int| 0 <= a < r@.len() && 0 <= b < r@.len() && a != b implies r@[a] != r@[b] by {
                if a < b {
                    assert(self.entries@[a].0 != self.entries@[b].0);
                } else {
                    assert(self.entries@[b].0 != self.entries@[a].0);
                }
            }
        }
        r
    }

    /// Gives the root table frame back to `allocator`.
    pub fn release(self, allocator: &mut StackFrameAllocator)
        requires
            old(allocator).wf(),
            old(allocator).in_use(self.root()),
        ensures
            final(allocator).wf(),
            forall|p: u64| final(allocator).in_use(p) <==> (old(allocator).in_use(p) && p != self.root()),
    {
        allocator.dealloc_ppn(self.root_ppn);
    }
}

} // verus!

verus! {

/// The bytes of a user-space buffer, in address order.
pub struct UserBuffer {
    pub bytes: Vec<u8>,
}

impl UserBuffer {
    pub fn new(bytes: Vec<u8>) -> (r: UserBuffer)
        ensures
            r.bytes@ == bytes@,
    {
        UserBuffer { bytes }
    }

    /// Total number of bytes.
    pub fn len(&self) -> (r: usize)
        ensures
            r == self.bytes@.len(),
    {
        self.bytes.len()
    }
}

} // verus!
