use vstd::prelude::*;
use crate::config::{MEMORY_END, PAGE_SIZE};
use crate::memory::address::PhysPageNum;
use crate::memory::frame_allocator::StackFrameAllocator;
use crate::memory::memory_set::{MemorySet, KernelLayout, kernel_areas, TRAMPOLINE_VPN};
use crate::memory::page_table::PageTableEntry;

pub mod address;
pub mod frame_allocator;
pub mod page_table;
pub mod memory_set;
pub mod elf;
pub mod sv39;

verus! {

/// The first physical frame past the kernel image that ends at `ekernel`.
pub open spec fn first_free_frame(ekernel: u64) -> int {
    (ekernel + PAGE_SIZE - 1) / (PAGE_SIZE as int)
}

/// Whether memory can be set up for the kernel image of `layout`: the
/// layout is valid and a frame is left past the image.
pub fn can_init(layout: &KernelLayout) -> (r: bool)
    ensures
        r == (layout.valid() && first_free_frame(layout.ekernel) < MEMORY_END / PAGE_SIZE),
{
    if !layout.is_valid() {
        return false;
    }
    (layout.ekernel + (PAGE_SIZE as u64) - 1) / (PAGE_SIZE as u64) < (MEMORY_END as u64) / (PAGE_SIZE as u64)
}

/// Sets up memory: a frame allocator over the frames from the end of the
/// kernel image up to the end of physical memory, and the kernel's address
/// space, built with frames from it.
pub fn init(layout: &KernelLayout) -> (r: (StackFrameAllocator, MemorySet))
    requires
        layout.valid(),
        first_free_frame(layout.ekernel) < MEMORY_END / PAGE_SIZE,
    ensures
        r.0.wf(),
        r.1.wf(),
        r.1.frames_in_use(&r.0),
        r.1.infos() == kernel_areas(*layout),
        r.1.frames() == set![r.1.root()],
        forall|p: u64| r.0.in_use(p) <==> (p < first_free_frame(layout.ekernel) || p == r.1.root()),
        r.1.pt().contains_key(TRAMPOLINE_VPN),
        r.1.pt()[TRAMPOLINE_VPN] == (PageTableEntry { ppn: PhysPageNum(layout.strampoline / (PAGE_SIZE as u64)), flags: 11u8 }),
        forall|v: u64| #[trigger] r.1.pt().contains_key(v) <==> (v == TRAMPOLINE_VPN || r.1.in_some_area(v as int)),
{
    let first = (layout.ekernel + (PAGE_SIZE as u64) - 1) / (PAGE_SIZE as u64);
    let last = (MEMORY_END as u64) / (PAGE_SIZE as u64);
    let mut allocator = StackFrameAllocator::new();
    allocator.init(PhysPageNum(first), PhysPageNum(last));
    let kernel_space = MemorySet::new_kernel(layout, &mut allocator);
    proof {
        assert(kernel_space.frames().contains(kernel_space.root()));
        assert(first == first_free_frame(layout.ekernel));
    }
    (allocator, kernel_space)
}

} // verus!
