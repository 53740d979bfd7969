use vstd::prelude::*;
use crate::config::{BIG_STRIDE, PAGE_SIZE, TRAMPOLINE, KERNEL_STACK_SIZE, MAX_APP_NUM, kernel_stack_position};
use crate::memory::address::{VirtAddr, VirtPageNum, PhysPageNum, floor_vpn, ceil_vpn, va_of};
use crate::memory::frame_allocator::StackFrameAllocator;
use crate::memory::memory_set::{MemorySet, MapPermission, MapType, AreaInfo, ElfError, TRAP_CONTEXT_VPN, TRAMPOLINE_VPN, elf_loadable,
    elf_error, elf_areas, total_pages, pages_meet, areas_fit, load_plan, stack_top, last_end, page_image, PERM_R, PERM_W};
use crate::memory::elf::elf_header;
use crate::memory::frame_allocator::zero_page;
use crate::memory::page_table::token_of;
use crate::task::mail::MailBox;
use crate::trap::{TrapContext, TRAP_CONTEXT_BYTES, words_bytes, init_trap_words};

verus! {

/// Size in bytes of a saved task context (return address and twelve saved
/// registers).
pub const TASK_CONTEXT_SIZE: u64 = 104;
/// Stride of a task of default priority.
pub const DEFAULT_PRIORITY: usize = 16;
/// File identifiers of standard input and output in fd tables.
pub const STDIN_FILE: usize = 0;
pub const STDOUT_FILE: usize = 1;

#[derive(Copy, Clone, Debug, PartialEq, Eq, Structural)]
pub enum TaskStatus {
    Ready,
    Running,
    Exited,
}

/// Why a task cannot be created.
#[derive(Copy, Clone, Debug, PartialEq, Eq, Structural)]
pub enum TaskError {
    /// The ELF image cannot be loaded.
    Elf(ElfError),
    /// The kernel stack cannot be mapped in kernel space.
    KernelStack,
}

/// A task: its address space, scheduling state, open files and mailbox.
pub struct TaskControlBlock {
    pub pid: usize,
    /// Kernel-space address of the saved task context.
    pub task_cx_ptr: u64,
    pub task_status: TaskStatus,
    pub memory_set: MemorySet,
    /// The frame of the trap context.
    pub trap_cx_ppn: PhysPageNum,
    /// The top of the user stack.
    pub base_size: u64,
    pub pass: usize,
    pub stride: usize,
    pub priority: usize,
    pub count_time: usize,
    pub exit_code: i32,
    /// Open file of each descriptor, as a file identifier.
    pub fd_table: Vec<Option<usize>>,
    pub mail_box: MailBox,
    /// Pids of the children.
    pub children: Vec<usize>,
    /// Pid of the parent, if it has one.
    pub parent: Option<usize>,
}

/// What a new task's trap context must hold.
#[derive(Copy, Clone, Debug, PartialEq, Eq, Structural)]
pub struct TrapSetup {
    pub entry_point: u64,
    pub user_sp: u64,
    pub kernel_stack_top: u64,
}

/// The pages of the kernel stack of app `app_id`, as `(start, end)`.
pub open spec fn kernel_stack_pages(app_id: u64) -> (int, int) {
    let top = TRAMPOLINE - app_id * (KERNEL_STACK_SIZE + PAGE_SIZE);
    (floor_vpn(va_of(top - KERNEL_STACK_SIZE)), ceil_vpn(va_of(top)))
}

/// Whether the kernel stack of app `app_id` can be mapped in `ks` with
/// `free` free frames: its pages meet no area nor the trampoline, and
/// frames suffice.
pub open spec fn kernel_stack_fits(ks: &MemorySet, app_id: u64, free: int) -> bool {
    let (s, e) = kernel_stack_pages(app_id);
    &&& s <= e
    &&& !(s <= TRAMPOLINE_VPN < e)
    &&& !exists|k: int| 0 <= k < ks.infos().len()
        && #[trigger] pages_meet(ks.infos()[k].start as int, ks.infos()[k].end as int, s, e)
    &&& free >= e - s
}

/// No area of a well-formed space shares a page with another.
proof fn memory_set_fit(ms: &MemorySet)
    requires
        ms.wf(),
    ensures
        areas_fit(ms.infos()),
{
    ms.lemma_wf_areas_fit();
}

impl TaskControlBlock {
    /// The address space is well formed and the descriptor table is what a
    /// task can use.
    pub open spec fn wf(&self) -> bool {
        &&& self.memory_set.wf()
        &&& self.mail_box.wf()
        &&& self.priority > 0
    }

    /// The task `pid` running app `app_id` from `elf_data`: its address
    /// space, a kernel stack mapped in `kernel_space`, and default scheduling
    /// state. Its trap-context page holds the context that enters user space
    /// at the image's entry point with the top of the user stack, the
    /// kernel's address space and stack top, `trap_handler`, and `sstatus`
    /// (which the caller reads from the machine, user mode as the previous
    /// mode). Also answers the entry point, stack top and kernel stack top.
    pub fn new(elf_data: &[u8], app_id: u64, pid: usize, strampoline: u64, kernel_space: &mut MemorySet,
        allocator: &mut StackFrameAllocator, trap_handler: u64, sstatus: u64)
        -> (r: Result<(TaskControlBlock, TrapSetup), TaskError>)
        requires
            app_id <= MAX_APP_NUM,
            old(kernel_space).wf(),
            old(allocator).wf(),
            old(kernel_space).frames_in_use(old(allocator)),
            strampoline % (PAGE_SIZE as u64) == 0,
        ensures
            final(allocator).wf(),
            final(kernel_space).wf(),
            final(kernel_space).frames_in_use(final(allocator)),
            r is Err ==> forall|p: u64| final(allocator).in_use(p) <==> old(allocator).in_use(p),
            r is Err ==> final(kernel_space).infos() == old(kernel_space).infos(),
            (r matches Err(TaskError::Elf(_))) <==> !elf_loadable(elf_data@, old(allocator).free_count() as int),
            r matches Err(TaskError::Elf(e)) ==> elf_error(elf_data@, old(allocator).free_count() as int) == Some(e),
            (r matches Err(TaskError::KernelStack)) <==> (elf_loadable(elf_data@, old(allocator).free_count() as int)
                && !kernel_stack_fits(old(kernel_space), app_id,
                    old(allocator).free_count() - 1 - total_pages(elf_areas(elf_data@)->0))),
            r matches Ok((t, s)) ==> {
                let top = TRAMPOLINE - app_id * (KERNEL_STACK_SIZE + PAGE_SIZE);
                let h = elf_header(elf_data@)->0;
                let plan = load_plan(elf_data@, h, h.ph_count as int)->0;
                let ms = t.memory_set;
                &&& s.entry_point == h.entry_point
                &&& s.user_sp == stack_top(last_end(plan))
                &&& ms.infos() == elf_areas(elf_data@)->0
                &&& forall|j: int, i: int| 0 <= j < plan.len() ==> (#[trigger] ms.page_data(j, i) matches Some(b) ==>
                    b == page_image(zero_page(), elf_data@.subrange(plan[j].offset as int, plan[j].offset + plan[j].file_size), i))
                &&& forall|i: int| #[trigger] ms.page_data(plan.len() as int, i) matches Some(b) ==> b == zero_page()
                &&& ms.user_bytes(TRAP_CONTEXT_VPN * PAGE_SIZE, TRAP_CONTEXT_BYTES as int) == Some(words_bytes(
                    init_trap_words(s.entry_point, s.user_sp, token_of(old(kernel_space).root()), s.kernel_stack_top, trap_handler, sstatus)))
                &&& t.parent is None
                &&& t.wf()
                &&& t.pid == pid
                &&& t.task_status == TaskStatus::Ready
                &&& t.pass == 0
                &&& t.priority == DEFAULT_PRIORITY
                &&& t.stride == BIG_STRIDE / DEFAULT_PRIORITY
                &&& t.count_time == 0
                &&& t.base_size == s.user_sp
                &&& t.memory_set.pt().contains_key(TRAP_CONTEXT_VPN)
                &&& t.trap_cx_ppn == t.memory_set.pt()[TRAP_CONTEXT_VPN].ppn
                &&& t.fd_table@ == seq![Some(STDIN_FILE), Some(STDOUT_FILE), Some(STDOUT_FILE)]
                &&& t.children@.len() == 0
                &&& t.mail_box@.len() == 0
                &&& s.kernel_stack_top == top
                &&& t.task_cx_ptr == top - TASK_CONTEXT_SIZE
                &&& t.memory_set.frames_in_use(final(allocator))
                &&& final(kernel_space).infos() == old(kernel_space).infos().push(AreaInfo {
                    start: floor_vpn(va_of(top - KERNEL_STACK_SIZE)) as u64,
                    end: ceil_vpn(va_of(top as int)) as u64,
                    map_type: MapType::Framed,
                    perm: MapPermission { bits: 6u8 },
                })
            },
    {
        let (memory_set, user_sp, entry_point) = match MemorySet::try_from_elf(elf_data, strampoline, allocator) {
            Ok(x) => x,
            Err(e) => {
                return Err(TaskError::Elf(e));
            }
        };
        proof {
            let k = memory_set.infos().len() - 1;
            assert(memory_set.infos()[k].start == TRAP_CONTEXT_VPN);
            memory_set.lemma_area_page_mapped(k, TRAP_CONTEXT_VPN);
        }
        let trap_cx_pte = memory_set.translate(VirtPageNum(TRAP_CONTEXT_VPN));
        let trap_cx_ppn = match trap_cx_pte {
            Some(pte) => pte.ppn(),
            None => {
                proof { assert(false); }
                PhysPageNum(0)
            }
        };
        let (bottom, top) = kernel_stack_position(app_id);
        let bottom_va = VirtAddr::from_u64(bottom);
        let top_va = VirtAddr::from_u64(top);
        let start_vpn = bottom_va.floor();
        let end_vpn = top_va.ceil();
        if start_vpn.0 > end_vpn.0 || kernel_space.conflicts(start_vpn.0, end_vpn.0)
            || !allocator.has_free(end_vpn.0 - start_vpn.0) {
            memory_set.release(allocator);
            return Err(TaskError::KernelStack);
        }
        proof {
            kernel_space.lemma_no_conflict_unmapped(start_vpn.0 as int, end_vpn.0 as int);
            assert(kernel_space.frames_in_use(allocator)) by {
                assert forall|p: u64| #[trigger] kernel_space.frames().contains(p) implies allocator.in_use(p) by {
                    assert(old(allocator).in_use(p));
                }
            }
        }
        let ghost before_alloc = *allocator;
        kernel_space.insert_framed_area(bottom_va, top_va, MapPermission { bits: PERM_R | PERM_W }, allocator);
        proof {
            assert((PERM_R | PERM_W) == 6u8) by (bit_vector);
            assert forall|p: u64| #[trigger] memory_set.frames().contains(p) implies allocator.in_use(p) by {
                assert(before_alloc.in_use(p));
            }
        }
        let ctx = TrapContext::app_init_context(entry_point, user_sp, kernel_space.token(), top, trap_handler, sstatus);
        let bytes = ctx.to_bytes();
        let trap_va: u64 = TRAP_CONTEXT_VPN * (PAGE_SIZE as u64);
        let ghost ms0 = memory_set;
        proof {
            let infos = memory_set.infos();
            let last = infos.len() - 1;
            assert(infos[last].start == TRAP_CONTEXT_VPN && infos[last].end == TRAMPOLINE_VPN);
            assert(infos[last].map_type == MapType::Framed);
            assert forall|j: int| 0 <= j < TRAP_CONTEXT_BYTES implies #[trigger] memory_set.user_byte(trap_va + j) is Some by {
                assert((trap_va + j) / (PAGE_SIZE as int) == TRAP_CONTEXT_VPN);
                assert(memory_set.framed_page((trap_va + j) / (PAGE_SIZE as int)));
                memory_set.lemma_framed_byte(trap_va + j);
            }
        }
        let mut memory_set = memory_set;
        let ok = memory_set.write_user_bytes(trap_va, bytes.as_slice());
        proof {
            assert(ok);
            let infos = ms0.infos();
            let last = infos.len() - 1;
            memory_set_fit(&ms0);
            assert forall|j: int, i: int| 0 <= j < last implies #[trigger] memory_set.page_data(j, i) == ms0.page_data(j, i) by {
                assert(!pages_meet(infos[j].start as int, infos[j].end as int, infos[last].start as int, infos[last].end as int));
                assert(infos[j].end * PAGE_SIZE <= trap_va || trap_va + TRAP_CONTEXT_BYTES <= infos[j].start * PAGE_SIZE);
            }
        }
        let mut fd_table: Vec<Option<usize>> = Vec::new();
        fd_table.push(Some(STDIN_FILE));
        fd_table.push(Some(STDOUT_FILE));
        fd_table.push(Some(STDOUT_FILE));
        let t = TaskControlBlock {
            pid,
            task_cx_ptr: top - TASK_CONTEXT_SIZE,
            task_status: TaskStatus::Ready,
            memory_set,
            trap_cx_ppn,
            base_size: user_sp,
            pass: 0,
            stride: BIG_STRIDE / DEFAULT_PRIORITY,
            priority: DEFAULT_PRIORITY,
            count_time: 0,
            exit_code: 0,
            fd_table,
            mail_box: MailBox::new(),
            children: Vec::new(),
            parent: None,
        };
        assert(t.fd_table@ =~= seq![Some(STDIN_FILE), Some(STDOUT_FILE), Some(STDOUT_FILE)]);
        Ok((t, TrapSetup { entry_point, user_sp, kernel_stack_top: top }))
    }

    /// The satp token of the task's address space.
    pub fn get_user_token(&self) -> (r: u64)
        ensures
            r == token_of(self.memory_set.root()),
    {
        self.memory_set.token()
    }

    /// Sets the priority; the stride becomes `BIG_STRIDE / pri`.
    pub fn set_priority(&mut self, pri: usize)
        requires
            pri > 0,
        ensures
            final(self).priority == pri,
            final(self).stride == BIG_STRIDE / pri,
            final(self).pass == old(self).pass,
            final(self).memory_set == old(self).memory_set,
            final(self).fd_table == old(self).fd_table,
            final(self).task_status == old(self).task_status,
    {
        self.priority = pri;
        self.stride = BIG_STRIDE / pri;
    }

    /// Advances the pass by the stride.
    pub fn update_pass(&mut self)
        requires
            old(self).pass + old(self).stride <= usize::MAX,
        ensures
            final(self).pass == old(self).pass + old(self).stride,
            final(self).stride == old(self).stride,
            final(self).priority == old(self).priority,
            final(self).memory_set == old(self).memory_set,
            final(self).fd_table == old(self).fd_table,
            final(self).task_status == old(self).task_status,
    {
        self.pass = self.pass + self.stride;
    }

    /// The lowest free descriptor, the table growing by one when none is.
    pub fn alloc_fd(&mut self) -> (r: usize)
        ensures
            r <= old(self).fd_table@.len(),
            r < final(self).fd_table@.len(),
            final(self).fd_table@[r as int] is None,
            forall|i: int| 0 <= i < r ==> #[trigger] old(self).fd_table@[i] is Some,
            r < old(self).fd_table@.len() ==> final(self).fd_table@ == old(self).fd_table@,
            r == old(self).fd_table@.len() ==> final(self).fd_table@ == old(self).fd_table@.push(None),
            final(self).memory_set == old(self).memory_set,
            final(self).mail_box == old(self).mail_box,
            final(self).pid == old(self).pid,
    {
        let mut i: usize = 0;
        while i < self.fd_table.len() && self.fd_table[i].is_some()
            invariant
                i <= self.fd_table@.len(),
                forall|j: int| 0 <= j < i ==> #[trigger] self.fd_table@[j] is Some,
            decreases self.fd_table@.len() - i,
        {
            i = i + 1;
        }
        if i == self.fd_table.len() {
            self.fd_table.push(None);
        }
        i
    }
}

} // verus!
