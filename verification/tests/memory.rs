use rcore_os::memory::memory_set::{MapArea, MapType};
use rcore_os::config::{kernel_stack_position, PAGE_SIZE, TRAMPOLINE};
use rcore_os::memory::address::{PhysPageNum, VirtAddr, VirtPageNum, VPNRange};
use rcore_os::memory::frame_allocator::{frame_alloc, frame_dealloc, StackFrameAllocator};
use rcore_os::memory::init;
use rcore_os::memory::memory_set::{remap_test, ElfError, KernelLayout, MapPermission, MemorySet, PERM_R, PERM_U, PERM_W, PERM_X};
use rcore_os::memory::page_table::{PageTable, PageTableEntry, PTE_R, PTE_V, PTE_W};

fn allocator(first: u64, count: u64) -> StackFrameAllocator {
    let mut a = StackFrameAllocator::new();
    a.init(PhysPageNum(first), PhysPageNum(first + count));
    a
}

fn put_u16(v: &mut Vec<u8>, at: usize, x: u16) {
    v[at..at + 2].copy_from_slice(&x.to_le_bytes());
}

fn put_u32(v: &mut Vec<u8>, at: usize, x: u32) {
    v[at..at + 4].copy_from_slice(&x.to_le_bytes());
}

fn put_u64(v: &mut Vec<u8>, at: usize, x: u64) {
    v[at..at + 8].copy_from_slice(&x.to_le_bytes());
}

/// A 64-bit ELF file with one loadable segment of `code` at `vaddr`.
fn elf_image(entry: u64, vaddr: u64, code: &[u8], mem_size: u64, flags: u32) -> Vec<u8> {
    let mut v = vec![0u8; 120 + code.len()];
    v[0..4].copy_from_slice(&[0x7f, b'E', b'L', b'F']);
    v[4] = 2;
    v[5] = 1;
    v[6] = 1;
    put_u16(&mut v, 16, 2);
    put_u16(&mut v, 18, 0xf3);
    put_u32(&mut v, 20, 1);
    put_u64(&mut v, 24, entry);
    put_u64(&mut v, 32, 64);
    put_u16(&mut v, 52, 64);
    put_u16(&mut v, 54, 56);
    put_u16(&mut v, 56, 1);
    put_u32(&mut v, 64, 1);
    put_u32(&mut v, 68, flags);
    put_u64(&mut v, 72, 120);
    put_u64(&mut v, 80, vaddr);
    put_u64(&mut v, 88, vaddr);
    put_u64(&mut v, 96, code.len() as u64);
    put_u64(&mut v, 104, mem_size);
    put_u64(&mut v, 112, 0x1000);
    v[120..].copy_from_slice(code);
    v
}

#[test]
fn addresses_round_to_pages() {
    let va = VirtAddr::from_u64(0x1234);
    assert_eq!(va.floor().0, 1);
    assert_eq!(va.ceil().0, 2);
    assert_eq!(va.page_offset(), 0x234);
    assert!(!va.aligned());
    assert!(VirtAddr::from_u64(0x3000).aligned());
    assert_eq!(VirtAddr::from_u64(0x3000).ceil().0, 3);
    assert_eq!(VirtPageNum(5).to_va().0, 0x5000);
    // Only the low 39 bits of an address count.
    assert_eq!(VirtAddr::from_u64(0x80_0000_1000).0, 0x1000);
    let r = VPNRange::new(VirtPageNum(2), VirtPageNum(7));
    assert_eq!(r.get_start().0, 2);
    assert_eq!(r.get_end().0, 7);
}

#[test]
fn kernel_stacks_lie_below_the_trampoline() {
    let (bottom, top) = kernel_stack_position(0);
    assert_eq!(top, TRAMPOLINE);
    assert_eq!(bottom, TRAMPOLINE - 8192);
    let (bottom2, top2) = kernel_stack_position(2);
    assert_eq!(top2, TRAMPOLINE - 2 * (8192 + 4096));
    assert_eq!(bottom2, top2 - 8192);
}

#[test]
fn frames_come_back_last_in_first_out() {
    let mut a = allocator(100, 3);
    assert!(a.has_free(3));
    assert!(!a.has_free(4));
    let f1 = frame_alloc(&mut a).unwrap();
    let f2 = frame_alloc(&mut a).unwrap();
    assert_eq!(f1.ppn.0, 100);
    assert_eq!(f2.ppn.0, 101);
    assert!(f1.data.iter().all(|b| *b == 0));
    assert_eq!(f1.data.len(), PAGE_SIZE);
    let p2 = f2.ppn;
    frame_dealloc(&mut a, f2);
    // The frame given back last is handed out first.
    assert_eq!(a.alloc_ppn().unwrap(), p2);
    assert_eq!(a.alloc_ppn().unwrap().0, 102);
    assert!(a.alloc_ppn().is_none());
    assert!(frame_alloc(&mut a).is_none());
}

#[test]
fn page_table_maps_and_unmaps() {
    let mut a = allocator(10, 4);
    let mut pt = PageTable::new(&mut a);
    assert_eq!(pt.token(), 0x8000_0000_0000_0000u64 | 10);
    assert!(pt.translate(VirtPageNum(3)).is_none());
    pt.map(VirtPageNum(3), PhysPageNum(77), PTE_R | PTE_W);
    let pte = pt.translate(VirtPageNum(3)).unwrap();
    assert_eq!(pte.ppn().0, 77);
    assert!(pte.is_valid() && pte.readable() && pte.writable() && !pte.executable() && !pte.u_able());
    assert_eq!(pte.flags(), PTE_R | PTE_W | PTE_V);
    pt.unmap(VirtPageNum(3));
    assert!(pt.translate(VirtPageNum(3)).is_none());
    let e = PageTableEntry::empty();
    assert!(!e.is_valid());
    assert_eq!(PageTableEntry::new(PhysPageNum(5), PTE_R).ppn().0, 5);
}

#[test]
fn permissions_combine() {
    let rw = MapPermission::r().union(MapPermission::w());
    assert_eq!(rw.bits(), PERM_R | PERM_W);
    assert!(rw.contains(MapPermission::r()));
    assert!(!rw.contains(MapPermission::x()));
    assert_eq!(MapPermission::from_bits_truncate(0xff).bits(), PERM_R | PERM_W | PERM_X | PERM_U);
    assert_eq!(MapPermission::empty().bits(), 0);
}

#[test]
fn framed_area_reads_back_what_was_written() {
    let mut a = allocator(0x80000, 16);
    let mut ms = MemorySet::new_bare(&mut a);
    ms.insert_framed_area(VirtAddr::from_u64(0x4000), VirtAddr::from_u64(0x6000),
        MapPermission::r().union(MapPermission::w()).union(MapPermission::u()), &mut a);
    assert!(ms.contains_vpn(VirtPageNum(4), VirtPageNum(5)));
    assert!(!ms.contains_vpn(VirtPageNum(6), VirtPageNum(8)));
    // Fresh frames read as zero.
    assert_eq!(ms.read_user_bytes(0x4ffe, 4).unwrap(), vec![0, 0, 0, 0]);
    assert!(ms.write_user_bytes(0x4ffe, &[1, 2, 3, 4]));
    assert_eq!(ms.read_user_bytes(0x4ffe, 4).unwrap(), vec![1, 2, 3, 4]);
    assert_eq!(ms.read_byte(0x5000), Some(3));
    // Outside the area nothing can be read or written.
    assert!(ms.read_user_bytes(0x5ffe, 4).is_none());
    assert!(!ms.write_user_bytes(0x5ffe, &[9, 9, 9, 9]));
    assert_eq!(ms.read_byte(0x5ffe), Some(0));
    let pte = ms.translate(VirtPageNum(5)).unwrap();
    assert!(pte.readable() && pte.writable() && pte.u_able() && !pte.executable());
}

#[test]
fn framed_area_is_removed_by_its_exact_range() {
    let mut a = allocator(0x80000, 16);
    let mut ms = MemorySet::new_bare(&mut a);
    ms.insert_framed_area(VirtAddr::from_u64(0x4000), VirtAddr::from_u64(0x6000), MapPermission::r(), &mut a);
    assert_eq!(ms.remove_framed_area(VirtPageNum(4), VirtPageNum(5), &mut a), None);
    assert_eq!(ms.remove_framed_area(VirtPageNum(4), VirtPageNum(6), &mut a), Some(2));
    assert!(ms.translate(VirtPageNum(4)).is_none());
    assert!(!ms.contains_vpn(VirtPageNum(0), VirtPageNum(100)));
    // Both frames went back to the allocator.
    assert!(a.has_free(15));
}

#[test]
fn strings_are_read_up_to_their_terminator() {
    let mut a = allocator(0x80000, 8);
    let mut ms = MemorySet::new_bare(&mut a);
    ms.insert_framed_area(VirtAddr::from_u64(0x1000), VirtAddr::from_u64(0x2000), MapPermission::r(), &mut a);
    assert!(ms.write_user_bytes(0x1100, b"hello\0"));
    assert_eq!(ms.translated_str(0x1100).unwrap(), b"hello".to_vec());
    // A string that runs off the area is refused.
    assert!(ms.write_user_bytes(0x1ffe, b"ab"));
    assert!(ms.translated_str(0x1ffe).is_none());
}

#[test]
fn elf_segments_are_loaded() {
    let code = [0x13u8, 0x05, 0x10, 0x00];
    let elf = elf_image(0x10000, 0x10000, &code, 0x10, 5);
    let mut a = allocator(0x80000, 64);
    let (ms, sp, entry) = MemorySet::from_elf(&elf, 0x8020_0000, &mut a);
    assert_eq!(entry, 0x10000);
    // One guard page above the segment, then an 8 KiB user stack.
    assert_eq!(sp, 0x11000 + 0x1000 + 0x2000);
    assert_eq!(ms.read_user_bytes(0x10000, 4).unwrap(), code.to_vec());
    assert_eq!(ms.read_user_bytes(0x10004, 12).unwrap(), vec![0u8; 12]);
    let pte = ms.translate(VirtPageNum(0x10)).unwrap();
    assert!(pte.readable() && pte.executable() && pte.u_able() && !pte.writable());
    // The guard page is not mapped, the stack is.
    assert!(ms.translate(VirtPageNum(0x11)).is_none());
    assert!(ms.translate(VirtPageNum(0x12)).unwrap().writable());
    assert!(ms.translate(VirtPageNum(0x13)).is_some());
    // The trampoline and the trap context page.
    assert_eq!(ms.translate(VirtPageNum(0x7ff_ffff)).unwrap().ppn().0, 0x80200);
    assert!(ms.translate(VirtPageNum(0x7ff_fffe)).is_some());
}

#[test]
fn elf_errors() {
    let mut a = allocator(0x80000, 64);
    assert_eq!(MemorySet::try_from_elf(&[0u8; 10], 0x8020_0000, &mut a).err(), Some(ElfError::Malformed));
    let mut bad = elf_image(0x10000, 0x10000, &[1, 2, 3, 4], 4, 5);
    bad[0] = 0;
    assert_eq!(MemorySet::try_from_elf(&bad, 0x8020_0000, &mut a).err(), Some(ElfError::Malformed));
    // File bytes that do not fit the segment's memory.
    let big = elf_image(0x10000, 0x10000, &[1u8; 8], 0, 5);
    assert_eq!(MemorySet::try_from_elf(&big, 0x8020_0000, &mut a).err(), Some(ElfError::BadSegment));
    // A segment on the trampoline page.
    let tramp = elf_image(0x7f_ffff_f000, 0x7f_ffff_f000, &[1, 2, 3, 4], 4, 5);
    assert_eq!(MemorySet::try_from_elf(&tramp, 0x8020_0000, &mut a).err(), Some(ElfError::Overlap));
    // A program header table that runs past the end of the file.
    let mut no_ph = elf_image(0x10000, 0x10000, &[1, 2, 3, 4], 4, 5);
    put_u64(&mut no_ph, 32, 0x1_0000);
    assert_eq!(MemorySet::try_from_elf(&no_ph, 0x8020_0000, &mut a).err(), Some(ElfError::ProgramHeader));
    // Too few frames.
    let mut small = allocator(0x80000, 2);
    let ok = elf_image(0x10000, 0x10000, &[1, 2, 3, 4], 4, 5);
    assert_eq!(MemorySet::try_from_elf(&ok, 0x8020_0000, &mut small).err(), Some(ElfError::OutOfMemory));
    assert!(small.has_free(2));
}

#[test]
fn forked_space_copies_the_data() {
    let elf = elf_image(0x10000, 0x10000, &[7, 8, 9, 10], 4, 7);
    let mut a = allocator(0x80000, 64);
    let (mut ms, _, _) = MemorySet::from_elf(&elf, 0x8020_0000, &mut a);
    assert!(ms.write_user_bytes(0x12ff0, &[42]));
    let child = MemorySet::from_existed_user(&ms, 0x8020_0000, &mut a);
    assert_eq!(child.read_user_bytes(0x10000, 4).unwrap(), vec![7, 8, 9, 10]);
    assert_eq!(child.read_byte(0x12ff0), Some(42));
    assert_ne!(child.token(), ms.token());
    assert_ne!(child.translate(VirtPageNum(0x10)).unwrap().ppn(), ms.translate(VirtPageNum(0x10)).unwrap().ppn());
}

#[test]
fn data_pages_are_recycled() {
    let elf = elf_image(0x10000, 0x10000, &[7, 8, 9, 10], 4, 7);
    let mut a = allocator(0x80000, 8);
    let (mut ms, _, _) = MemorySet::from_elf(&elf, 0x8020_0000, &mut a);
    assert!(!a.has_free(4));
    ms.recycle_data_pages(&mut a);
    // Everything but the root table is free again.
    assert!(a.has_free(7));
    assert!(!a.has_free(8));
}

fn layout() -> KernelLayout {
    KernelLayout {
        stext: 0x8020_0000,
        etext: 0x8020_3000,
        srodata: 0x8020_3000,
        erodata: 0x8020_4000,
        sdata: 0x8020_4000,
        edata: 0x8020_5000,
        sbss_with_stack: 0x8020_5000,
        ebss: 0x8020_8000,
        ekernel: 0x8020_8000,
        strampoline: 0x8020_1000,
    }
}

#[test]
fn kernel_space_protects_its_sections() {
    let (a, kernel) = init(&layout());
    assert!(remap_test(&kernel, &layout()));
    let text = kernel.translate(VirtPageNum(0x80201)).unwrap();
    assert!(text.readable() && text.executable() && !text.writable());
    assert_eq!(text.ppn().0, 0x80201);
    let rodata = kernel.translate(VirtPageNum(0x80203)).unwrap();
    assert!(rodata.readable() && !rodata.writable() && !rodata.executable());
    let data = kernel.translate(VirtPageNum(0x80204)).unwrap();
    assert!(data.writable() && !data.executable());
    let free_mem = kernel.translate(VirtPageNum(0x80500)).unwrap();
    assert!(free_mem.writable());
    assert!(kernel.translate(VirtPageNum(0x80800)).is_none());
    assert_eq!(kernel.translate(VirtPageNum(0x7ff_ffff)).unwrap().ppn().0, 0x80201);
    // The root table took the first frame past the kernel image.
    assert_eq!(kernel.token(), 0x8000_0000_0000_0000u64 | 0x80208);
    assert!(a.has_free(0x80800 - 0x80208 - 1));
    assert!(!a.has_free(0x80800 - 0x80208));
}

#[test]
fn elf_header_of_short_32_bit_file() {
    let mut v = vec![0u8; 52];
    v[0..4].copy_from_slice(&[0x7f, b'E', b'L', b'F']);
    v[4] = 1;
    v[5] = 1;
    put_u32(&mut v, 24, 0x1000);
    put_u32(&mut v, 28, 52);
    put_u16(&mut v, 42, 32);
    put_u16(&mut v, 44, 0);
    let h = rcore_os::memory::elf::parse_elf_header(&v).unwrap();
    assert!(!h.class64);
    assert_eq!((h.entry_point, h.ph_offset, h.ph_entry_size, h.ph_count), (0x1000, 52, 32, 0));
    // the 64-bit header takes 64 bytes
    v[4] = 2;
    assert!(rcore_os::memory::elf::parse_elf_header(&v).is_none());
    // below 52 bytes no class fits
    v[4] = 1;
    assert!(rcore_os::memory::elf::parse_elf_header(&v[..51]).is_none());
}

#[test]
fn map_one_replaces_a_frame_it_held() {
    let mut a = allocator(0x100, 8);
    let mut pt = PageTable::new(&mut a);
    let mut area = MapArea::new(VirtAddr(0x1000), VirtAddr(0x3000), MapType::Framed, MapPermission { bits: PERM_R | PERM_U });
    area.map_one(&mut pt, &mut a, VirtPageNum(1));
    let first = pt.translate(VirtPageNum(1)).unwrap().ppn;
    assert!(a.has_free(6) && !a.has_free(7));
    // the page is unmapped from the table but the area still holds its frame
    pt.unmap(VirtPageNum(1));
    area.map_one(&mut pt, &mut a, VirtPageNum(1));
    let second = pt.translate(VirtPageNum(1)).unwrap().ppn;
    assert_ne!(first, second);
    // the old frame went back: as many frames are free as before
    assert!(a.has_free(6) && !a.has_free(7));
}
