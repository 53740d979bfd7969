use rcore_os::memory::address::{PhysPageNum, VirtPageNum};
use rcore_os::memory::frame_allocator::StackFrameAllocator;
use rcore_os::memory::memory_set::MemorySet;
use rcore_os::memory::page_table::{PageTable, PTE_R, PTE_V, PTE_W, PTE_X};
use rcore_os::memory::sv39::{release_sv39_tables, TableFrame};

fn allocator(first: u64, count: u64) -> StackFrameAllocator {
    let mut a = StackFrameAllocator::new();
    a.init(PhysPageNum(first), PhysPageNum(first + count));
    a
}

fn entry(tables: &[TableFrame], ppn: u64, i: u64) -> u64 {
    tables.iter().find(|t| t.ppn == ppn).map(|t| t.ptes[i as usize]).unwrap_or(0)
}

/// The MMU's three-level walk: the leaf (frame, flags) of page `vpn`.
fn walk(tables: &[TableFrame], root: u64, vpn: u64) -> Option<(u64, u64)> {
    let e2 = entry(tables, root, vpn >> 18);
    if e2 & 1 == 0 || e2 & 0xe != 0 {
        return None;
    }
    let e1 = entry(tables, e2 >> 10, (vpn >> 9) & 511);
    if e1 & 1 == 0 || e1 & 0xe != 0 {
        return None;
    }
    let e0 = entry(tables, e1 >> 10, vpn & 511);
    if e0 & 1 == 0 {
        return None;
    }
    Some((e0 >> 10, e0 & 0x3ff))
}

#[test]
fn sv39_tables_walk_to_the_mappings() {
    let mut a = allocator(0x100, 64);
    let mut pt = PageTable::new(&mut a);
    let root = pt.root_ppn().0;
    pt.map(VirtPageNum(0x10), PhysPageNum(0x123), PTE_R | PTE_W);
    pt.map(VirtPageNum(0x11), PhysPageNum(0x124), PTE_R);
    pt.map(VirtPageNum(0x7ff_ffff), PhysPageNum(0x80200), PTE_R | PTE_X);
    let before = 64 - 1;
    assert!(a.has_free(before));
    let tables = pt.sv39_tables(&mut a).unwrap();
    // root, two second-level tables (indices 0 and 511), two last-level tables
    assert_eq!(tables.len(), 5);
    assert_eq!(tables[0].ppn, root);
    assert!(tables.iter().all(|t| t.ptes.len() == 512));
    assert!(a.has_free(before - 4));
    assert!(!a.has_free(before - 3));
    // the root's first entry names a table: valid, R/W/X clear
    assert_eq!(tables[0].ptes[0] & 0xf, PTE_V as u64);
    assert_eq!(walk(&tables, root, 0x10), Some((0x123, (PTE_R | PTE_W | PTE_V) as u64)));
    assert_eq!(walk(&tables, root, 0x11), Some((0x124, (PTE_R | PTE_V) as u64)));
    assert_eq!(walk(&tables, root, 0x7ff_ffff), Some((0x80200, (PTE_R | PTE_X | PTE_V) as u64)));
    assert_eq!(walk(&tables, root, 0x12), None);
    assert_eq!(walk(&tables, root, 0x200), None);
    assert_eq!(walk(&tables, root, 0x40000), None);
    // the leaf word: frame number above ten flag bits
    let leaf = tables.iter().find(|t| t.ptes[0x10] != 0).unwrap();
    assert_eq!(leaf.ptes[0x10], (0x123 << 10) | (PTE_R | PTE_W | PTE_V) as u64);
    release_sv39_tables(tables, &mut a);
    assert!(a.has_free(before));
    assert!(!a.has_free(before + 1));
}

#[test]
fn sv39_tables_of_empty_table_is_root_only() {
    let mut a = allocator(0x100, 4);
    let pt = PageTable::new(&mut a);
    let tables = pt.sv39_tables(&mut a).unwrap();
    assert_eq!(tables.len(), 1);
    assert!(tables[0].ptes.iter().all(|e| *e == 0));
    assert!(a.has_free(3));
}

#[test]
fn sv39_tables_refuse_out_of_range_page() {
    let mut a = allocator(0x100, 8);
    let mut pt = PageTable::new(&mut a);
    pt.map(VirtPageNum(0x800_0000), PhysPageNum(0x123), PTE_R);
    assert!(pt.sv39_tables(&mut a).is_none());
    assert!(a.has_free(7));
}

#[test]
fn sv39_tables_refuse_when_frames_run_out() {
    let mut a = allocator(0x100, 2);
    let mut pt = PageTable::new(&mut a);
    pt.map(VirtPageNum(0x10), PhysPageNum(0x123), PTE_R);
    // one free frame, two needed
    assert!(pt.sv39_tables(&mut a).is_none());
    assert!(a.has_free(1));
    assert!(!a.has_free(2));
}

#[test]
fn sv39_tables_of_memory_set_keep_trampoline() {
    let mut a = allocator(0x100, 16);
    let mut ms = MemorySet::new_bare(&mut a);
    ms.map_trampoline(0x8020_1000);
    let root = ms.token() & ((1u64 << 44) - 1);
    let tables = ms.sv39_tables(&mut a).unwrap();
    assert_eq!(tables.len(), 3);
    let (ppn, flags) = walk(&tables, root, 0x7ff_ffff).unwrap();
    assert_eq!(ppn, 0x80201);
    assert_eq!(flags & 0xb, (PTE_R | PTE_X | PTE_V) as u64);
    assert_eq!(walk(&tables, root, 0x7ff_fffe), None);
    assert_eq!(ms.mapped_pages(), vec![0x7ff_ffff]);
}
