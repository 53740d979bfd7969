//! The hardware form of an address space: Sv39 page-table frames whose
//! three-level walk gives exactly the leaf mappings of a `PageTable`.

use vstd::prelude::*;
use crate::memory::address::{PhysPageNum, VirtPageNum};
use crate::memory::frame_allocator::StackFrameAllocator;
use crate::memory::page_table::{PageTable, PageTableEntry};

verus! {

/// Entries in one table frame.
pub const TABLE_ENTRIES: u64 = 512;

/// Page numbers that three 9-bit indices reach.
pub const SV39_VPN_LIMIT: u64 = 0x800_0000;

/// Frame numbers that an entry can hold: 44 bits.
pub const SV39_PPN_LIMIT: u64 = 0x1000_0000_0000;

/// One frame of an Sv39 page table: its number and its entries, index 0 first.
pub struct TableFrame {
    pub ppn: u64,
    pub ptes: Vec<u64>,
}

/// The hardware word of a leaf entry: the frame number above ten flag bits.
pub open spec fn leaf_word(e: PageTableEntry) -> u64 {
    (e.ppn.0 * 1024 + e.flags) as u64
}

/// The hardware word of an entry that names the next-level table in frame `ppn`:
/// valid, with R, W and X clear.
pub open spec fn pointer_word(ppn: u64) -> u64 {
    (ppn * 1024 + 1) as u64
}

/// A valid entry with R, W and X clear.
pub open spec fn is_table_pointer(e: u64) -> bool {
    e % 2 == 1 && (e / 2) % 8 == 0
}

/// Entry `i` of the table held in frame `p`; 0 where there is no such table.
pub open spec fn table_entry(t: Seq<TableFrame>, p: u64, i: int) -> u64 {
    if exists|k: int| 0 <= k < t.len() && #[trigger] t[k].ppn == p {
        let k = choose|k: int| 0 <= k < t.len() && #[trigger] t[k].ppn == p;
        if 0 <= i < t[k].ptes@.len() {
            t[k].ptes@[i]
        } else {
            0
        }
    } else {
        0
    }
}

/// The walk of the MMU from the root table in frame `root` for page `vpn`:
/// the leaf entry reached through two table pointers, or `None` where an
/// entry on the way is not valid.
pub open spec fn sv39_walk(t: Seq<TableFrame>, root: u64, vpn: u64) -> Option<PageTableEntry> {
    let e2 = table_entry(t, root, (vpn / 0x40000) as int);
    if !is_table_pointer(e2) {
        None
    } else {
        let e1 = table_entry(t, (e2 / 1024) as u64, ((vpn / 512) % 512) as int);
        if !is_table_pointer(e1) {
            None
        } else {
            let e0 = table_entry(t, (e1 / 1024) as u64, (vpn % 512) as int);
            if e0 % 2 == 0 {
                None
            } else {
                Some(PageTableEntry { ppn: PhysPageNum((e0 / 1024) as u64), flags: (e0 % 1024) as u8 })
            }
        }
    }
}

/// Every mapping fits the hardware form: page below the Sv39 limit, frame
/// number in 44 bits, valid bit set.
pub open spec fn sv39_encodable(m: Map<u64, PageTableEntry>) -> bool {
    forall|v: u64| #[trigger] m.contains_key(v) ==> {
        &&& v < SV39_VPN_LIMIT
        &&& m[v].ppn.0 < SV39_PPN_LIMIT
        &&& m[v].flags % 2 == 1
    }
}

/// The first-level indices in use: one second-level table each.
pub open spec fn upper_indices(m: Map<u64, PageTableEntry>) -> Set<u64> {
    Set::new(|x: u64| exists|v: u64| #[trigger] m.contains_key(v) && v / 0x40000 == x)
}

/// The page-number prefixes of 18 bits in use: one last-level table each.
pub open spec fn lower_prefixes(m: Map<u64, PageTableEntry>) -> Set<u64> {
    Set::new(|x: u64| exists|v: u64| #[trigger] m.contains_key(v) && v / 512 == x)
}

/// Frames the tables below the root take.
pub open spec fn sv39_frames_needed(m: Map<u64, PageTableEntry>) -> nat {
    upper_indices(m).len() + lower_prefixes(m).len()
}

/// Entry `x - base` of a table of pointers: to the frame paired with key `x`, if any.
pub open spec fn pointer_slot(keys: Seq<u64>, ppns: Seq<u64>, x: int) -> u64 {
    if exists|j: int| 0 <= j < keys.len() && keys[j] == x {
        pointer_word(ppns[choose|j: int| 0 <= j < keys.len() && keys[j] == x])
    } else {
        0
    }
}

/// Entry for page `v` of a last-level table.
pub open spec fn leaf_slot(m: Map<u64, PageTableEntry>, v: int) -> u64 {
    if m.contains_key(v as u64) {
        leaf_word(m[v as u64])
    } else {
        0
    }
}

/// Position of `x` in `v`.
fn find_u64(v: &Vec<u64>, x: u64) -> (r: Option<usize>)
    ensures
        r matches Some(i) ==> i < v@.len() && v@[i as int] == x,
        r is None ==> !v@.contains(x),
{
    let mut i: usize = 0;
    while i < v.len()
        invariant
            i <= v@.len(),
            forall|k: int| 0 <= k < i ==> v@[k] != x,
        decreases v@.len() - i,
    {
        if v[i] == x {
            return Some(i);
        }
        i = i + 1;
    }
    None
}

/// The 512 entries of a table of pointers for keys `base .. base + 512`.
fn pointer_table(keys: &Vec<u64>, ppns: &Vec<u64>, base: u64) -> (r: Vec<u64>)
    requires
        keys@.no_duplicates(),
        keys@.len() == ppns@.len(),
        forall|j: int| 0 <= j < ppns@.len() ==> #[trigger] ppns@[j] < SV39_PPN_LIMIT,
        base + TABLE_ENTRIES <= u64::MAX,
    ensures
        r@.len() == TABLE_ENTRIES,
        forall|i: int| 0 <= i < TABLE_ENTRIES ==> #[trigger] r@[i] == pointer_slot(keys@, ppns@, base + i),
{
    let mut r: Vec<u64> = Vec::new();
    let mut i: u64 = 0;
    while i < TABLE_ENTRIES
        invariant
            keys@.no_duplicates(),
            keys@.len() == ppns@.len(),
            forall|j: int| 0 <= j < ppns@.len() ==> #[trigger] ppns@[j] < SV39_PPN_LIMIT,
            base + TABLE_ENTRIES <= u64::MAX,
            i <= TABLE_ENTRIES,
            r@.len() == i,
            forall|k: int| 0 <= k < i ==> #[trigger] r@[k] == pointer_slot(keys@, ppns@, base + k),
        decreases TABLE_ENTRIES - i,
    {
        let x = base + i;
        match find_u64(keys, x) {
            Some(j) => {
                let p = ppns[j];
                proof {
                    let c = choose|c: int| 0 <= c < keys@.len() && keys@[c] == x;
                    assert(keys@[j as int] == x);
                    assert(c == j);
                }
                r.push(p * 1024 + 1);
            }
            None => {
                proof {
                    if exists|c: int| 0 <= c < keys@.len() && keys@[c] == x {
                        let c = choose|c: int| 0 <= c < keys@.len() && keys@[c] == x;
                        assert(keys@.contains(x));
                    }
                }
                r.push(0);
            }
        }
        i = i + 1;
    }
    r
}

/// The 512 entries of the last-level table for pages `prefix * 512 ..`.
fn leaf_table(pt: &PageTable, prefix: u64) -> (r: Vec<u64>)
    requires
        pt.wf(),
        sv39_encodable(pt@),
        prefix < 0x40000,
    ensures
        r@.len() == TABLE_ENTRIES,
        forall|i: int| 0 <= i < TABLE_ENTRIES ==> #[trigger] r@[i] == leaf_slot(pt@, prefix * 512 + i),
{
    let mut r: Vec<u64> = Vec::new();
    let mut i: u64 = 0;
    while i < TABLE_ENTRIES
        invariant
            pt.wf(),
            sv39_encodable(pt@),
            prefix < 0x40000,
            i <= TABLE_ENTRIES,
            r@.len() == i,
            forall|k: int| 0 <= k < i ==> #[trigger] r@[k] == leaf_slot(pt@, prefix * 512 + k),
        decreases TABLE_ENTRIES - i,
    {
        let v = prefix * 512 + i;
        match pt.translate(VirtPageNum(v)) {
            Some(e) => {
                assert(pt@.contains_key(v));
                r.push(e.ppn.0 * 1024 + e.flags as u64);
            }
            None => {
                r.push(0);
            }
        }
        i = i + 1;
    }
    r
}

/// Takes `n` frames from `allocator`.
fn take_frames(allocator: &mut StackFrameAllocator, n: usize) -> (r: Vec<u64>)
    requires
        old(allocator).wf(),
        old(allocator).free_count() >= n,
    ensures
        final(allocator).wf(),
        r@.len() == n,
        r@.no_duplicates(),
        forall|j: int| 0 <= j < n ==> #[trigger] old(allocator).is_free(r@[j]),
        forall|j: int| 0 <= j < n ==> !old(allocator).in_use(#[trigger] r@[j]),
        forall|p: u64| final(allocator).in_use(p) <==> (old(allocator).in_use(p) || r@.contains(p)),
        forall|p: u64| final(allocator).is_free(p) ==> old(allocator).is_free(p),
        final(allocator).free_count() + n == old(allocator).free_count(),
{
    let mut r: Vec<u64> = Vec::new();
    let mut i: usize = 0;
    while i < n
        invariant
            allocator.wf(),
            i <= n,
            r@.len() == i,
            r@.no_duplicates(),
            allocator.free_count() + i == old(allocator).free_count(),
            old(allocator).free_count() >= n,
            forall|j: int| 0 <= j < i ==> #[trigger] old(allocator).is_free(r@[j]),
            forall|j: int| 0 <= j < i ==> !old(allocator).in_use(#[trigger] r@[j]),
            forall|j: int| 0 <= j < i ==> allocator.in_use(#[trigger] r@[j]),
            forall|p: u64| allocator.in_use(p) <==> (old(allocator).in_use(p) || r@.contains(p)),
            forall|p: u64| allocator.is_free(p) ==> old(allocator).is_free(p),
        decreases n - i,
    {
        let ghost before = *allocator;
        let ghost old_r = r@;
        match allocator.alloc_ppn() {
            Some(f) => {
                proof {
                    assert(!r@.contains(f.0)) by {
                        if r@.contains(f.0) {
                            let j = choose|j: int| 0 <= j < r@.len() && r@[j] == f.0;
                            assert(before.in_use(r@[j]));
                            before.lemma_free_not_in_use(f.0);
                        }
                    }
                    old(allocator).lemma_free_not_in_use(f.0);
                }
                r.push(f.0);
                proof {
                    assert(r@ == old_r.push(f.0));
                    assert forall|p: u64| #[trigger] r@.contains(p) <==> (old_r.contains(p) || p == f.0) by {
                        if r@.contains(p) {
                            let j = choose|j: int| 0 <= j < r@.len() && r@[j] == p;
                            if j < old_r.len() {
                                assert(old_r[j] == p);
                            }
                        }
                        if old_r.contains(p) {
                            let j = choose|j: int| 0 <= j < old_r.len() && old_r[j] == p;
                            assert(r@[j] == p);
                        }
                        if p == f.0 {
                            assert(r@[old_r.len() as int] == p);
                        }
                    }
                }
            }
            None => {
                proof { assert(false); }
            }
        }
        i = i + 1;
    }
    r
}

/// The distinct values `v / d` over the pages `v` of `pages`.
fn distinct_quotients(pages: &Vec<u64>, d: u64) -> (r: Vec<u64>)
    requires
        d > 0,
    ensures
        r@.no_duplicates(),
        forall|x: u64| #[trigger] r@.contains(x) <==> exists|k: int| 0 <= k < pages@.len() && pages@[k] / d == x,
{
    let mut r: Vec<u64> = Vec::new();
    let mut i: usize = 0;
    while i < pages.len()
        invariant
            d > 0,
            i <= pages@.len(),
            r@.no_duplicates(),
            forall|x: u64| #[trigger] r@.contains(x) <==> exists|k: int| 0 <= k < i && pages@[k] / d == x,
        decreases pages@.len() - i,
    {
        let x = pages[i] / d;
        let ghost old_r = r@;
        if find_u64(&r, x).is_none() {
            r.push(x);
            proof {
                assert forall|y: u64| #[trigger] r@.contains(y) <==> (old_r.contains(y) || y == x) by {
                    if r@.contains(y) {
                        let j = choose|j: int| 0 <= j < r@.len() && r@[j] == y;
                        if j < old_r.len() {
                            assert(old_r[j] == y);
                        }
                    }
                    if old_r.contains(y) {
                        let j = choose|j: int| 0 <= j < old_r.len() && old_r[j] == y;
                        assert(r@[j] == y);
                    }
                    if y == x {
                        assert(r@[old_r.len() as int] == y);
                    }
                }
            }
        }
        proof {
            assert forall|y: u64| #[trigger] r@.contains(y) <==> exists|k: int| 0 <= k < i + 1 && pages@[k] / d == y by {
                if exists|k: int| 0 <= k < i + 1 && pages@[k] / d == y {
                    let k = choose|k: int| 0 <= k < i + 1 && pages@[k] / d == y;
                    if k < i {
                        assert(old_r.contains(y));
                    }
                }
                if old_r.contains(y) {
                    let k = choose|k: int| 0 <= k < i && pages@[k] / d == y;
                    assert(0 <= k < i + 1 && pages@[k] / d == y);
                }
                if y == x {
                    assert(pages@[i as int] / d == y);
                }
            }
        }
        i = i + 1;
    }
    r
}

/// Whether every mapping of `pt`, whose pages are `pages`, fits the hardware form.
fn check_encodable(pt: &PageTable, pages: &Vec<u64>) -> (r: bool)
    requires
        pt.wf(),
        forall|v: u64| #[trigger] pages@.contains(v) <==> pt@.contains_key(v),
    ensures
        r == sv39_encodable(pt@),
{
    let mut i: usize = 0;
    while i < pages.len()
        invariant
            pt.wf(),
            forall|v: u64| #[trigger] pages@.contains(v) <==> pt@.contains_key(v),
            i <= pages@.len(),
            forall|k: int| 0 <= k < i ==> {
                let v = #[trigger] pages@[k];
                &&& v < SV39_VPN_LIMIT
                &&& pt@[v].ppn.0 < SV39_PPN_LIMIT
                &&& pt@[v].flags % 2 == 1
            },
        decreases pages@.len() - i,
    {
        let v = pages[i];
        assert(pages@.contains(v));
        let e = match pt.translate(VirtPageNum(v)) {
            Some(e) => e,
            None => {
                proof { assert(false); }
                return false;
            }
        };
        if v >= SV39_VPN_LIMIT || e.ppn.0 >= SV39_PPN_LIMIT || e.flags % 2 == 0 {
            proof {
                assert(pt@.contains_key(v));
            }
            return false;
        }
        i = i + 1;
    }
    proof {
        assert forall|v: u64| #[trigger] pt@.contains_key(v) implies {
            &&& v < SV39_VPN_LIMIT
            &&& pt@[v].ppn.0 < SV39_PPN_LIMIT
            &&& pt@[v].flags % 2 == 1
        } by {
            assert(pages@.contains(v));
            let k = choose|k: int| 0 <= k < pages@.len() && pages@[k] == v;
            assert(pages@[k] == v);
        }
    }
    true
}

/// In frames with distinct numbers, the entries of the table in frame `t[k].ppn`
/// are those of `t[k]`.
proof fn lemma_table_entry(t: Seq<TableFrame>, k: int, i: int)
    requires
        forall|a: int, b: int| 0 <= a < b < t.len() ==> t[a].ppn != t[b].ppn,
        0 <= k < t.len(),
        0 <= i < t[k].ptes@.len(),
    ensures
        table_entry(t, t[k].ppn, i) == t[k].ptes@[i],
{
    let p = t[k].ppn;
    assert(t[k].ppn == p);
    let c = choose|c: int| 0 <= c < t.len() && #[trigger] t[c].ppn == p;
    if c < k {
        assert(t[c].ppn != t[k].ppn);
    } else if k < c {
        assert(t[k].ppn != t[c].ppn);
    }
}

/// The walk through the tables laid out by `PageTable::sv39_tables` gives the mapping of `m`.
proof fn lemma_walk(
    t: Seq<TableFrame>,
    root: u64,
    m: Map<u64, PageTableEntry>,
    tops: Seq<u64>,
    top_ppns: Seq<u64>,
    mids: Seq<u64>,
    mid_ppns: Seq<u64>,
    vpn: u64,
)
    requires
        tops.len() == top_ppns.len(),
        mids.len() == mid_ppns.len(),
        tops.no_duplicates(),
        mids.no_duplicates(),
        t.len() == 1 + tops.len() + mids.len(),
        forall|a: int, b: int| 0 <= a < b < t.len() ==> t[a].ppn != t[b].ppn,
        forall|k: int| 0 <= k < t.len() ==> #[trigger] t[k].ptes@.len() == TABLE_ENTRIES,
        t[0].ppn == root,
        forall|i: int| 0 <= i < TABLE_ENTRIES ==> #[trigger] t[0].ptes@[i] == pointer_slot(tops, top_ppns, i),
        forall|k: int| 1 <= k <= tops.len() ==> #[trigger] t[k].ppn == top_ppns[k - 1],
        forall|k: int, i: int| 1 <= k <= tops.len() && 0 <= i < TABLE_ENTRIES ==>
            #[trigger] t[k].ptes@[i] == pointer_slot(mids, mid_ppns, tops[k - 1] * 512 + i),
        forall|k: int| 1 + tops.len() <= k < t.len() ==> #[trigger] t[k].ppn == mid_ppns[k - 1 - tops.len()],
        forall|k: int, i: int| 1 + tops.len() <= k < t.len() && 0 <= i < TABLE_ENTRIES ==>
            #[trigger] t[k].ptes@[i] == leaf_slot(m, mids[k - 1 - tops.len()] * 512 + i),
        forall|j: int| 0 <= j < top_ppns.len() ==> #[trigger] top_ppns[j] < SV39_PPN_LIMIT,
        forall|j: int| 0 <= j < mid_ppns.len() ==> #[trigger] mid_ppns[j] < SV39_PPN_LIMIT,
        forall|v: u64| #[trigger] m.contains_key(v) ==> tops.contains(v / 0x40000) && mids.contains(v / 512),
        sv39_encodable(m),
        vpn < SV39_VPN_LIMIT,
    ensures
        sv39_walk(t, root, vpn) == (if m.contains_key(vpn) { Some(m[vpn]) } else { None::<PageTableEntry> }),
{
    let a = vpn / 0x40000;
    let q = vpn / 512;
    let b = q % 512;
    let i = vpn % 512;
    assert(a < 512);
    assert(q == a * 512 + b);
    assert(vpn == q * 512 + i);
    lemma_table_entry(t, 0, a as int);
    let e2 = table_entry(t, root, a as int);
    assert(e2 == pointer_slot(tops, top_ppns, a as int));
    let ai = a as int;
    let qi = q as int;
    if exists|j: int| 0 <= j < tops.len() && tops[j] == ai {
        let j = choose|j: int| 0 <= j < tops.len() && tops[j] == ai;
        let p1 = top_ppns[j];
        let j2 = choose|j: int| 0 <= j < tops.len() && tops[j] == ai;
        assert(0 <= j2 < tops.len() && tops[j2] == ai);
        assert(j2 == j);
        assert(e2 == pointer_word(p1));
        assert(p1 < SV39_PPN_LIMIT);
        assert(is_table_pointer(e2));
        assert((e2 / 1024) as u64 == p1);
        assert(t[j + 1].ppn == p1);
        lemma_table_entry(t, j + 1, b as int);
        let e1 = table_entry(t, p1, b as int);
        assert(e1 == t[j + 1].ptes@[b as int]);
        assert(tops[j] * 512 + b == q);
        assert(e1 == pointer_slot(mids, mid_ppns, q as int));
        if exists|c: int| 0 <= c < mids.len() && mids[c] == qi {
            let c = choose|c: int| 0 <= c < mids.len() && mids[c] == qi;
            let p0 = mid_ppns[c];
            let c2 = choose|c: int| 0 <= c < mids.len() && mids[c] == qi;
            assert(0 <= c2 < mids.len() && mids[c2] == qi);
            assert(c2 == c);
            assert(e1 == pointer_word(p0));
            assert(p0 < SV39_PPN_LIMIT);
            assert(is_table_pointer(e1));
            assert((e1 / 1024) as u64 == p0);
            let k = 1 + tops.len() + c;
            assert(t[k].ppn == p0);
            lemma_table_entry(t, k, i as int);
            let e0 = table_entry(t, p0, i as int);
            assert(e0 == leaf_slot(m, mids[c] * 512 + i));
            assert(e0 == leaf_slot(m, vpn as int));
            if m.contains_key(vpn) {
                let e = m[vpn];
                assert(e.ppn.0 < SV39_PPN_LIMIT && e.flags % 2 == 1);
                assert(e0 == e.ppn.0 * 1024 + e.flags);
                assert(e0 % 2 == 1);
                assert((e0 / 1024) as u64 == e.ppn.0);
                assert(e0 % 1024 == e.flags);
                assert(PhysPageNum((e0 / 1024) as u64) == e.ppn);
            } else {
                assert(e0 == 0);
            }
        } else {
            assert(e1 == 0);
            if m.contains_key(vpn) {
                assert(mids.contains(q));
                let c = choose|c: int| 0 <= c < mids.len() && mids[c] == q;
                assert(false);
            }
        }
    } else {
        assert(e2 == 0);
        if m.contains_key(vpn) {
            assert(tops.contains(a));
            let j = choose|j: int| 0 <= j < tops.len() && tops[j] == a;
            assert(false);
        }
    }
}


impl PageTable {
    /// Lays out the hardware page table of this address space: the root table
    /// in the root frame, one second-level table for each first-level index in
    /// use and one last-level table for each 18-bit page prefix in use, their
    /// frames taken from `allocator`. The MMU's walk through them gives exactly
    /// the mappings of the table. `None`, with the allocator untouched, when a
    /// mapping does not fit the hardware form or too few frames are free.
    pub fn sv39_tables(&self, allocator: &mut StackFrameAllocator) -> (r: Option<Vec<TableFrame>>)
        requires
            self.wf(),
            old(allocator).wf(),
            old(allocator).in_use(self.root()),
            forall|p: u64| old(allocator).is_free(p) ==> p < SV39_PPN_LIMIT,
        ensures
            final(allocator).wf(),
            r is Some <==> (sv39_encodable(self@) && old(allocator).free_count() >= sv39_frames_needed(self@)),
            r is None ==> *final(allocator) == *old(allocator),
            r matches Some(t) ==> {
                &&& t@.len() == 1 + sv39_frames_needed(self@)
                &&& t@[0].ppn == self.root()
                &&& forall|k: int| 0 <= k < t@.len() ==> #[trigger] t@[k].ptes@.len() == TABLE_ENTRIES
                &&& forall|a: int, b: int| 0 <= a < b < t@.len() ==> t@[a].ppn != t@[b].ppn
                &&& forall|k: int| 1 <= k < t@.len() ==> !old(allocator).in_use(#[trigger] t@[k].ppn)
                &&& forall|p: u64| final(allocator).in_use(p) <==> (old(allocator).in_use(p)
                    || exists|k: int| 1 <= k < t@.len() && #[trigger] t@[k].ppn == p)
                &&& final(allocator).free_count() + sv39_frames_needed(self@) == old(allocator).free_count()
                &&& forall|vpn: u64| vpn < SV39_VPN_LIMIT ==> #[trigger] sv39_walk(t@, self.root(), vpn)
                    == (if self@.contains_key(vpn) { Some(self@[vpn]) } else { None::<PageTableEntry> })
            },
    {
        let pages = self.mapped_pages();
        if !check_encodable(self, &pages) {
            return None;
        }
        let tops = distinct_quotients(&pages, 0x40000);
        let mids = distinct_quotients(&pages, 512);
        proof {
            assert forall|x: u64| #[trigger] tops@.contains(x) <==> upper_indices(self@).contains(x) by {
                if tops@.contains(x) {
                    let k = choose|k: int| 0 <= k < pages@.len() && pages@[k] / 0x40000 == x;
                    assert(pages@.contains(pages@[k]));
                    assert(self@.contains_key(pages@[k]));
                }
                if upper_indices(self@).contains(x) {
                    let v = choose|v: u64| #[trigger] self@.contains_key(v) && v / 0x40000 == x;
                    assert(pages@.contains(v));
                    let k = choose|k: int| 0 <= k < pages@.len() && pages@[k] == v;
                    assert(pages@[k] / 0x40000 == x);
                }
            }
            assert forall|x: u64| #[trigger] mids@.contains(x) <==> lower_prefixes(self@).contains(x) by {
                if mids@.contains(x) {
                    let k = choose|k: int| 0 <= k < pages@.len() && pages@[k] / 512 == x;
                    assert(pages@.contains(pages@[k]));
                    assert(self@.contains_key(pages@[k]));
                }
                if lower_prefixes(self@).contains(x) {
                    let v = choose|v: u64| #[trigger] self@.contains_key(v) && v / 512 == x;
                    assert(pages@.contains(v));
                    let k = choose|k: int| 0 <= k < pages@.len() && pages@[k] == v;
                    assert(pages@[k] / 512 == x);
                }
            }
            assert(tops@.to_set() =~= upper_indices(self@));
            assert(mids@.to_set() =~= lower_prefixes(self@));
            tops@.unique_seq_to_set();
            mids@.unique_seq_to_set();
            assert forall|j: int| 0 <= j < tops@.len() implies #[trigger] tops@[j] < 512 by {
                assert(tops@.contains(tops@[j]));
                let k = choose|k: int| 0 <= k < pages@.len() && pages@[k] / 0x40000 == tops@[j];
                assert(pages@.contains(pages@[k]));
            }
            assert forall|j: int| 0 <= j < mids@.len() implies #[trigger] mids@[j] < 0x40000 by {
                assert(mids@.contains(mids@[j]));
                let k = choose|k: int| 0 <= k < pages@.len() && pages@[k] / 512 == mids@[j];
                assert(pages@.contains(pages@[k]));
            }
            assert forall|v: u64| #[trigger] self@.contains_key(v) implies tops@.contains(v / 0x40000)
                && mids@.contains(v / 512) by {
                assert(upper_indices(self@).contains(v / 0x40000));
                assert(lower_prefixes(self@).contains(v / 512));
            }
        }
        if !allocator.has_free_for(tops.len() as u64, mids.len() as u64) {
            return None;
        }
        let ghost a0 = *allocator;
        let top_ppns = take_frames(allocator, tops.len());
        let ghost a1 = *allocator;
        let mid_ppns = take_frames(allocator, mids.len());
        proof {
            assert forall|j: int| 0 <= j < top_ppns@.len() implies #[trigger] top_ppns@[j] < SV39_PPN_LIMIT by {
                assert(a0.is_free(top_ppns@[j]));
            }
            assert forall|j: int| 0 <= j < mid_ppns@.len() implies #[trigger] mid_ppns@[j] < SV39_PPN_LIMIT by {
                assert(a1.is_free(mid_ppns@[j]));
            }
        }
        let mut t: Vec<TableFrame> = Vec::new();
        t.push(TableFrame { ppn: self.root_ppn().0, ptes: pointer_table(&tops, &top_ppns, 0) });
        let mut j: usize = 0;
        while j < tops.len()
            invariant
                tops@.no_duplicates(),
                mids@.no_duplicates(),
                tops@.len() == top_ppns@.len(),
                mids@.len() == mid_ppns@.len(),
                forall|k: int| 0 <= k < tops@.len() ==> #[trigger] tops@[k] < 512,
                forall|k: int| 0 <= k < mid_ppns@.len() ==> #[trigger] mid_ppns@[k] < SV39_PPN_LIMIT,
                j <= tops@.len(),
                t@.len() == 1 + j,
                t@[0].ppn == self.root(),
                forall|k: int| 0 <= k < t@.len() ==> #[trigger] t@[k].ptes@.len() == TABLE_ENTRIES,
                forall|i: int| 0 <= i < TABLE_ENTRIES ==> #[trigger] t@[0].ptes@[i] == pointer_slot(tops@, top_ppns@, i),
                forall|k: int| 1 <= k < t@.len() ==> #[trigger] t@[k].ppn == top_ppns@[k - 1],
                forall|k: int, i: int| 1 <= k < t@.len() && 0 <= i < TABLE_ENTRIES ==>
                    #[trigger] t@[k].ptes@[i] == pointer_slot(mids@, mid_ppns@, tops@[k - 1] * 512 + i),
            decreases tops@.len() - j,
        {
            let base = tops[j] * 512;
            let ptes = pointer_table(&mids, &mid_ppns, base);
            t.push(TableFrame { ppn: top_ppns[j], ptes });
            j = j + 1;
        }
        let mut c: usize = 0;
        while c < mids.len()
            invariant
                self.wf(),
                sv39_encodable(self@),
                tops@.len() == top_ppns@.len(),
                mids@.len() == mid_ppns@.len(),
                forall|k: int| 0 <= k < mids@.len() ==> #[trigger] mids@[k] < 0x40000,
                c <= mids@.len(),
                t@.len() == 1 + tops@.len() + c,
                t@[0].ppn == self.root(),
                forall|k: int| 0 <= k < t@.len() ==> #[trigger] t@[k].ptes@.len() == TABLE_ENTRIES,
                forall|i: int| 0 <= i < TABLE_ENTRIES ==> #[trigger] t@[0].ptes@[i] == pointer_slot(tops@, top_ppns@, i),
                forall|k: int| 1 <= k <= tops@.len() ==> #[trigger] t@[k].ppn == top_ppns@[k - 1],
                forall|k: int, i: int| 1 <= k <= tops@.len() && 0 <= i < TABLE_ENTRIES ==>
                    #[trigger] t@[k].ptes@[i] == pointer_slot(mids@, mid_ppns@, tops@[k - 1] * 512 + i),
                forall|k: int| 1 + tops@.len() <= k < t@.len() ==> #[trigger] t@[k].ppn == mid_ppns@[k - 1 - tops@.len()],
                forall|k: int, i: int| 1 + tops@.len() <= k < t@.len() && 0 <= i < TABLE_ENTRIES ==>
                    #[trigger] t@[k].ptes@[i] == leaf_slot(self@, mids@[k - 1 - tops@.len()] * 512 + i),
            decreases mids@.len() - c,
        {
            let ptes = leaf_table(self, mids[c]);
            t.push(TableFrame { ppn: mid_ppns[c], ptes });
            c = c + 1;
        }
        proof {
            let n1 = tops@.len() as int;
            assert forall|a: int, b: int| 0 <= a < b < t@.len() implies t@[a].ppn != t@[b].ppn by {
                if a == 0 {
                    if b <= n1 {
                        assert(!a0.in_use(top_ppns@[b - 1]));
                    } else {
                        assert(a1.in_use(self.root()));
                        assert(!a1.in_use(mid_ppns@[b - 1 - n1]));
                    }
                } else if b <= n1 {
                    assert(top_ppns@[a - 1] != top_ppns@[b - 1]);
                } else if a <= n1 {
                    assert(top_ppns@.contains(top_ppns@[a - 1]));
                    assert(a1.in_use(top_ppns@[a - 1]));
                    assert(!a1.in_use(mid_ppns@[b - 1 - n1]));
                } else {
                    assert(mid_ppns@[a - 1 - n1] != mid_ppns@[b - 1 - n1]);
                }
            }
            assert forall|k: int| 1 <= k < t@.len() implies !old(allocator).in_use(#[trigger] t@[k].ppn) by {
                if k <= n1 {
                    assert(!a0.in_use(top_ppns@[k - 1]));
                } else {
                    assert(!a1.in_use(mid_ppns@[k - 1 - n1]));
                }
            }
            assert forall|p: u64| allocator.in_use(p) <==> (old(allocator).in_use(p)
                || exists|k: int| 1 <= k < t@.len() && #[trigger] t@[k].ppn == p) by {
                if top_ppns@.contains(p) {
                    let j = choose|j: int| 0 <= j < top_ppns@.len() && top_ppns@[j] == p;
                    assert(t@[j + 1].ppn == p);
                }
                if mid_ppns@.contains(p) {
                    let j = choose|j: int| 0 <= j < mid_ppns@.len() && mid_ppns@[j] == p;
                    assert(t@[j + 1 + n1].ppn == p);
                }
                if exists|k: int| 1 <= k < t@.len() && #[trigger] t@[k].ppn == p {
                    let k = choose|k: int| 1 <= k < t@.len() && #[trigger] t@[k].ppn == p;
                    if k <= n1 {
                        assert(top_ppns@.contains(top_ppns@[k - 1]));
                    } else {
                        assert(mid_ppns@.contains(mid_ppns@[k - 1 - n1]));
                    }
                }
            }
            assert forall|vpn: u64| vpn < SV39_VPN_LIMIT implies #[trigger] sv39_walk(t@, self.root(), vpn)
                == (if self@.contains_key(vpn) { Some(self@[vpn]) } else { None::<PageTableEntry> }) by {
                lemma_walk(t@, self.root(), self@, tops@, top_ppns@, mids@, mid_ppns@, vpn);
            }
        }
        Some(t)
    }
}


/// Gives back to `allocator` the frames below the root of tables laid out by
/// `sv39_tables`.
pub fn release_sv39_tables(tables: Vec<TableFrame>, allocator: &mut StackFrameAllocator)
    requires
        old(allocator).wf(),
        forall|a: int, b: int| 0 <= a < b < tables@.len() ==> tables@[a].ppn != tables@[b].ppn,
        forall|k: int| 1 <= k < tables@.len() ==> old(allocator).in_use(#[trigger] tables@[k].ppn),
    ensures
        final(allocator).wf(),
        forall|p: u64| final(allocator).in_use(p) <==> (old(allocator).in_use(p)
            && !exists|k: int| 1 <= k < tables@.len() && #[trigger] tables@[k].ppn == p),
{
    if tables.len() == 0 {
        return;
    }
    let mut k: usize = 1;
    while k < tables.len()
        invariant
            allocator.wf(),
            1 <= k <= tables@.len(),
            forall|a: int, b: int| 0 <= a < b < tables@.len() ==> tables@[a].ppn != tables@[b].ppn,
            forall|j: int| k <= j < tables@.len() ==> allocator.in_use(#[trigger] tables@[j].ppn),
            forall|p: u64| allocator.in_use(p) <==> (old(allocator).in_use(p)
                && !exists|j: int| 1 <= j < k && #[trigger] tables@[j].ppn == p),
        decreases tables@.len() - k,
    {
        let p = tables[k].ppn;
        allocator.dealloc_ppn(PhysPageNum(p));
        proof {
            assert forall|j: int| k + 1 <= j < tables@.len() implies allocator.in_use(#[trigger] tables@[j].ppn) by {
                assert(tables@[k as int].ppn != tables@[j].ppn);
            }
            assert forall|q: u64| allocator.in_use(q) <==> (old(allocator).in_use(q)
                && !exists|j: int| 1 <= j < k + 1 && #[trigger] tables@[j].ppn == q) by {
                if q == p {
                    assert(1 <= k < k + 1 && tables@[k as int].ppn == q);
                } else {
                    if exists|j: int| 1 <= j < k + 1 && #[trigger] tables@[j].ppn == q {
                        let j = choose|j: int| 1 <= j < k + 1 && #[trigger] tables@[j].ppn == q;
                        assert(j != k);
                    }
                }
            }
        }
        k = k + 1;
    }
    assert(k == tables@.len());
}

} // verus!
