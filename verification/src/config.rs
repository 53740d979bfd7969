use vstd::prelude::*;

verus! {

pub const USER_STACK_SIZE: usize = 8192;
pub const KERNEL_STACK_SIZE: usize = 8192;
pub const KERNEL_HEAP_SIZE: usize = 0x30_0000;
pub const MEMORY_END: usize = 0x8080_0000;

pub const MAX_APP_NUM: usize = 16;
pub const APP_BASE_ADDRESS: usize = 0x8040_0000;
pub const APP_SIZE_LIMIT: usize = 0x20000;
pub const BIG_STRIDE: usize = 0xc0000;

pub const CLOCK_FREQ: usize = 1250_0000;
pub const TIME_COUNT_THRESHOLD: usize = 2000;
pub const PAGE_SIZE: usize = 0x1000;
pub const PAGE_SIZE_BITS: usize = 0xc;

/// Highest page of the address space: the trap trampoline.
pub const TRAMPOLINE: u64 = 0xffff_ffff_ffff_f000;
/// The page just below the trampoline holds a task's trap context.
pub const TRAP_CONTEXT: u64 = 0xffff_ffff_ffff_e000;

/// The kernel stack of app `app_id` in kernel space, as `(bottom, top)`:
/// stacks lie below the trampoline, each under a guard page.
pub fn kernel_stack_position(app_id: u64) -> (r: (u64, u64))
    requires
        app_id <= MAX_APP_NUM,
    ensures
        r.1 == TRAMPOLINE - app_id * (KERNEL_STACK_SIZE + PAGE_SIZE),
        r.0 == r.1 - KERNEL_STACK_SIZE,
{
    let top = TRAMPOLINE - app_id * (KERNEL_STACK_SIZE as u64 + PAGE_SIZE as u64);
    let bottom = top - KERNEL_STACK_SIZE as u64;
    (bottom, top)
}

} // verus!
