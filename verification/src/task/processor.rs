use vstd::prelude::*;
use crate::config::PAGE_SIZE;
use crate::memory::address::{VirtAddr, VirtPageNum, floor_vpn, ceil_vpn, va_of};
use crate::memory::frame_allocator::StackFrameAllocator;
use crate::memory::frame_allocator::zero_page;
use crate::memory::memory_set::{MemorySet, MapPermission, MapType, AreaInfo, TRAMPOLINE_VPN, ranges_meet,
    PERM_R, PERM_W, PERM_X, PERM_U};
use crate::task::task::{TaskControlBlock, TaskStatus};
use crate::task::manager::TaskManager;
use crate::trap::TrapContext;
use crate::syscall::dispatch::SyscallOutcome;
use crate::config::CLOCK_FREQ;
use crate::timer::TICKS_PER_SEC;

verus! {

/// What a processor runs: the current task, if any.
pub struct Processor<T> {
    current: Option<T>,
}

impl<T> Processor<T> {
    pub closed spec fn view(&self) -> Option<T> {
        self.current
    }

    pub fn new() -> (r: Processor<T>)
        ensures
            r@ is None,
    {
        Processor { current: None }
    }

    /// Takes the current task, leaving none.
    pub fn take_current(&mut self) -> (r: Option<T>)
        ensures
            r == old(self)@,
            final(self)@ is None,
    {
        self.current.take()
    }

    /// The current task, if any.
    pub fn current(&self) -> (r: Option<&T>)
        ensures
            r == (match self@ { Some(t) => Some(&t), None => None::<&T> }),
    {
        match &self.current {
            Some(t) => Some(t),
            None => None,
        }
    }

    /// Makes `task` the current task.
    pub fn set_current(&mut self, task: T)
        ensures
            final(self)@ == Some(task),
    {
        self.current = Some(task);
    }
}

/// Marks `task`, fetched from the ready queue, as running: its pass grows by
/// its stride.
pub fn start_running(task: &mut TaskControlBlock)
    requires
        old(task).pass + old(task).stride <= usize::MAX,
    ensures
        final(task).pass == old(task).pass + old(task).stride,
        final(task).task_status == TaskStatus::Running,
        final(task).stride == old(task).stride,
        final(task).memory_set == old(task).memory_set,
        final(task).fd_table == old(task).fd_table,
{
    task.update_pass();
    task.task_status = TaskStatus::Running;
}

/// The current task gives up the processor: it becomes ready again.
pub fn suspend_current(task: &mut TaskControlBlock)
    ensures
        final(task).task_status == TaskStatus::Ready,
        final(task).memory_set == old(task).memory_set,
        final(task).fd_table == old(task).fd_table,
        final(task).pass == old(task).pass,
{
    task.task_status = TaskStatus::Ready;
}

/// One more time slice of the current task is over.
pub fn update_time_counter(task: &mut TaskControlBlock)
    requires
        old(task).count_time < usize::MAX,
    ensures
        final(task).count_time == old(task).count_time + 1,
        final(task).task_status == old(task).task_status,
        final(task).memory_set == old(task).memory_set,
        final(task).fd_table == old(task).fd_table,
        final(task).pass == old(task).pass,
{
    task.count_time = task.count_time + 1;
}

/// Whether `pid` is among `pids`.
fn contains_pid(pids: &Vec<usize>, pid: usize) -> (r: bool)
    ensures
        r == pids@.contains(pid),
{
    let mut i: usize = 0;
    while i < pids.len()
        invariant
            i <= pids@.len(),
            forall|j: int| 0 <= j < i ==> pids@[j] != pid,
        decreases pids@.len() - i,
    {
        if pids[i] == pid {
            assert(pids@[i as int] == pid);
            return true;
        }
        i = i + 1;
    }
    false
}

/// A queued task after `reparent`: its parent is `new_parent` when its pid
/// is among `children`.
pub open spec fn reparented(e: (usize, TaskControlBlock), children: Seq<usize>, new_parent: usize) -> (usize, TaskControlBlock) {
    if children.contains(e.1.pid) {
        (e.0, TaskControlBlock { parent: Some(new_parent), ..e.1 })
    } else {
        e
    }
}

/// Every queued task whose pid is among `children` gets `new_parent` as its
/// parent; the queue keeps its order.
pub fn reparent(manager: &mut TaskManager<TaskControlBlock>, children: &Vec<usize>, new_parent: usize)
    ensures
        final(manager)@.len() == old(manager)@.len(),
        forall|k: int| 0 <= k < old(manager)@.len() ==>
            #[trigger] final(manager)@[k] == reparented(old(manager)@[k], children@, new_parent),
{
    let n = manager.len();
    let mut i: usize = 0;
    while i < n
        invariant
            n == old(manager)@.len(),
            i <= n,
            manager@.len() == n,
            forall|k: int| 0 <= k < i ==> #[trigger] manager@[k] == reparented(old(manager)@[k], children@, new_parent),
            forall|k: int| i <= k < n ==> #[trigger] manager@[k] == old(manager)@[k],
        decreases n - i,
    {
        let ghost q = manager@;
        let (p, mut t) = manager.take_at(i);
        if contains_pid(children, t.pid) {
            t.parent = Some(new_parent);
        }
        manager.put_at(i, (p, t));
        proof {
            assert forall|k: int| 0 <= k < n && k != i implies #[trigger] manager@[k] == q[k] by {
                if k < i {
                    assert(manager@[k] == q.remove(i as int)[k]);
                } else {
                    assert(manager@[k] == q.remove(i as int)[k - 1]);
                }
            }
            assert(manager@[i as int] == reparented(old(manager)@[i as int], children@, new_parent));
        }
        i = i + 1;
    }
}

/// The current task exits with `exit_code`: it becomes exited, its
/// children go to `initproc_children` and those in the ready queue get the
/// task `initproc_pid` as their parent, and the frames of its areas go back
/// to the allocator.
pub fn exit_current(task: &mut TaskControlBlock, exit_code: i32, initproc_children: &mut Vec<usize>,
    initproc_pid: usize, manager: &mut TaskManager<TaskControlBlock>, allocator: &mut StackFrameAllocator)
    requires
        old(task).memory_set.wf(),
        old(allocator).wf(),
        old(task).memory_set.frames_in_use(old(allocator)),
    ensures
        final(task).pid == old(task).pid,
        final(task).task_status == TaskStatus::Exited,
        final(task).exit_code == exit_code,
        final(task).children@.len() == 0,
        final(initproc_children)@ == old(initproc_children)@ + old(task).children@,
        final(manager)@.len() == old(manager)@.len(),
        forall|k: int| 0 <= k < old(manager)@.len() ==>
            #[trigger] final(manager)@[k] == reparented(old(manager)@[k], old(task).children@, initproc_pid),
        final(task).memory_set.infos().len() == 0,
        final(task).memory_set.pt() == old(task).memory_set.pt(),
        final(allocator).wf(),
        forall|p: u64| final(allocator).in_use(p) <==>
            (old(allocator).in_use(p) && (p == old(task).memory_set.root() || !old(task).memory_set.frames().contains(p))),
{
    task.task_status = TaskStatus::Exited;
    task.exit_code = exit_code;
    reparent(manager, &task.children, initproc_pid);
    let mut i: usize = 0;
    let ghost c0 = initproc_children@;
    while i < task.children.len()
        invariant
            i <= task.children@.len(),
            task.children@ == old(task).children@,
            initproc_children@ == c0 + task.children@.subrange(0, i as int),
        decreases task.children@.len() - i,
    {
        initproc_children.push(task.children[i]);
        proof {
            assert(initproc_children@ =~= c0 + task.children@.subrange(0, i + 1));
        }
        i = i + 1;
    }
    proof {
        assert(task.children@.subrange(0, task.children@.len() as int) =~= task.children@);
    }
    task.children.clear();
    task.memory_set.recycle_data_pages(allocator);
}

/// The rights that mmap's `port` asks for: bit 0 read, bit 1 write, bit 2
/// execute; always user accessible.
pub open spec fn port_perm_bits(port: usize) -> u8 {
    (if port & 1 != 0 { PERM_R } else { 0u8 }) | (if port & 2 != 0 { PERM_W } else { 0u8 })
        | (if port & 4 != 0 { PERM_X } else { 0u8 }) | PERM_U
}

/// The pages an mmap of `[start, end)` covers.
pub open spec fn mmap_pages(start: usize, end: usize) -> (int, int) {
    (floor_vpn(va_of(start as int)), ceil_vpn(va_of(end as int)))
}

/// Whether the pages of `[start, end)` meet an area of `ms`.
pub open spec fn mmap_overlaps(ms: &MemorySet, start: usize, end: usize) -> bool {
    let (s, e) = mmap_pages(start, end);
    exists|k: int| 0 <= k < ms.infos().len() && #[trigger] ranges_meet(s, e, ms.infos()[k].start as int, ms.infos()[k].end as int)
}

/// Whether the pages of `[start, end)` can be mapped with `free` free
/// frames: they form a range, leave the trampoline alone, and frames
/// suffice.
pub open spec fn mmap_feasible(start: usize, end: usize, free: int) -> bool {
    let (s, e) = mmap_pages(start, end);
    &&& s <= e
    &&& !(s <= TRAMPOLINE_VPN < e)
    &&& free >= e - s
}

/// The rights that `port` asks for.
pub fn port_permission(port: usize) -> (r: MapPermission)
    ensures
        r.bits == port_perm_bits(port),
{
    let rd: u8 = if port & 0x1 != 0 { PERM_R } else { 0u8 };
    let wr: u8 = if port & 0x2 != 0 { PERM_W } else { 0u8 };
    let ex: u8 = if port & 0x4 != 0 { PERM_X } else { 0u8 };
    MapPermission { bits: rd | wr | ex | PERM_U }
}

/// Maps fresh zeroed frames over the pages of `[start, end)` with the
/// rights `port` asks for, answering the length in bytes; `None`, with
/// nothing changed, when the pages meet an area.
pub fn mmap_current_task(memory_set: &mut MemorySet, start: usize, end: usize, port: usize,
    allocator: &mut StackFrameAllocator) -> (r: Option<isize>)
    requires
        old(memory_set).wf(),
        old(allocator).wf(),
        old(memory_set).frames_in_use(old(allocator)),
        !mmap_overlaps(old(memory_set), start, end) ==> mmap_feasible(start, end, old(allocator).free_count() as int),
    ensures
        final(memory_set).wf(),
        final(allocator).wf(),
        final(memory_set).frames_in_use(final(allocator)),
        r is Some <==> !mmap_overlaps(old(memory_set), start, end),
        r is None ==> final(memory_set).infos() == old(memory_set).infos() && final(memory_set).pt() == old(memory_set).pt()
            && forall|p: u64| final(allocator).in_use(p) <==> old(allocator).in_use(p),
        r matches Some(n) ==> {
            let (s, e) = mmap_pages(start, end);
            &&& n == ((e - s) * PAGE_SIZE) as isize
            &&& final(memory_set).infos() == old(memory_set).infos().push(AreaInfo {
                start: s as u64, end: e as u64, map_type: MapType::Framed, perm: MapPermission { bits: port_perm_bits(port) } })
            &&& forall|i: int| #[trigger] final(memory_set).page_data(old(memory_set).infos().len() as int, i) matches Some(b)
                ==> b == zero_page()
            &&& forall|k: int, i: int| 0 <= k < old(memory_set).infos().len() ==>
                #[trigger] final(memory_set).page_data(k, i) == old(memory_set).page_data(k, i)
            &&& final(allocator).free_count() == old(allocator).free_count() - (e - s)
        },
{
    let perm = port_permission(port);
    let start_va = VirtAddr::from_u64(start as u64);
    let end_va = VirtAddr::from_u64(end as u64);
    let start_vpn = start_va.floor();
    let end_vpn = end_va.ceil();
    if memory_set.contains_vpn(start_vpn, end_vpn) {
        return None;
    }
    let real_start_va = start_vpn.to_va();
    let real_end_va = end_vpn.to_va();
    let len = real_end_va.0 - real_start_va.0;
    proof {
        assert(real_start_va.0 as int / (PAGE_SIZE as int) == start_vpn.0);
        assert(floor_vpn(real_start_va.0 as int) == start_vpn.0);
        assert(ceil_vpn(real_end_va.0 as int) == end_vpn.0);
        assert forall|k: int| 0 <= k < memory_set.infos().len() implies
            !#[trigger] crate::memory::memory_set::pages_meet(memory_set.infos()[k].start as int, memory_set.infos()[k].end as int,
                start_vpn.0 as int, end_vpn.0 as int) by {
            assert(!ranges_meet(start_vpn.0 as int, end_vpn.0 as int, memory_set.infos()[k].start as int, memory_set.infos()[k].end as int));
        }
        memory_set.lemma_no_conflict_unmapped(start_vpn.0 as int, end_vpn.0 as int);
    }
    memory_set.insert_framed_area(real_start_va, real_end_va, perm, allocator);
    Some(len as isize)
}

/// Unmaps the area that covers exactly the pages of `[start, end)` and gives
/// back its frames, answering the length in bytes; `None`, with nothing
/// changed, when no area covers exactly those pages.
pub fn munmap_current_task(memory_set: &mut MemorySet, start: usize, end: usize, allocator: &mut StackFrameAllocator)
    -> (r: Option<isize>)
    requires
        old(memory_set).wf(),
        old(allocator).wf(),
        old(memory_set).frames_in_use(old(allocator)),
    ensures
        final(memory_set).wf(),
        final(allocator).wf(),
        final(memory_set).frames_in_use(final(allocator)),
        ({
            let (s, e) = mmap_pages(start, end);
            &&& r is None <==> forall|k: int| 0 <= k < old(memory_set).infos().len() ==>
                !(#[trigger] old(memory_set).infos()[k].start == s && old(memory_set).infos()[k].end == e)
            &&& r matches Some(n) ==> n == ((e - s) * PAGE_SIZE) as isize && s <= e
                && final(memory_set).infos().len() == old(memory_set).infos().len() - 1
            &&& forall|k: int| r is Some && 0 <= k < old(memory_set).infos().len()
                && #[trigger] old(memory_set).infos()[k].start == s && old(memory_set).infos()[k].end == e
                && (forall|j: int| 0 <= j < k ==> !(#[trigger] old(memory_set).infos()[j].start == s
                    && old(memory_set).infos()[j].end == e)) ==> {
                &&& final(memory_set).infos() == old(memory_set).infos().remove(k)
                &&& final(memory_set).pt() == old(memory_set).pt().remove_keys(old(memory_set).area(k).pages())
                &&& forall|p: u64| final(allocator).in_use(p) <==> (old(allocator).in_use(p) && !old(memory_set).area(k).frames().contains(p))
            }
        }),
        r is None ==> final(memory_set).infos() == old(memory_set).infos() && final(memory_set).pt() == old(memory_set).pt()
            && forall|p: u64| final(allocator).in_use(p) <==> old(allocator).in_use(p),
{
    let start_vpn = VirtAddr::from_u64(start as u64).floor();
    let end_vpn = VirtAddr::from_u64(end as u64).ceil();
    let r = memory_set.remove_framed_area(start_vpn, end_vpn, allocator);
    match r {
        Some(vpn_len) => {
            proof {
                let k = choose|k: int| 0 <= k < old(memory_set).infos().len()
                    && #[trigger] old(memory_set).infos()[k].start == start_vpn.0 && old(memory_set).infos()[k].end == end_vpn.0;
                assert(vpn_len == end_vpn.0 - start_vpn.0);
                assert(end_vpn.0 <= 0x800_0000);
            }
            Some(((vpn_len as u64) * 4096) as isize)
        }
        None => None,
    }
}

} // verus!

verus! {

/// `t` made ready to run again.
pub open spec fn made_ready(t: TaskControlBlock) -> TaskControlBlock {
    TaskControlBlock { task_status: TaskStatus::Ready, ..t }
}

/// `t` at the end of a time slice: the slice counted, ready to run again.
pub open spec fn slice_over(t: TaskControlBlock) -> TaskControlBlock {
    TaskControlBlock { task_status: TaskStatus::Ready, count_time: (t.count_time + 1) as usize, ..t }
}

/// The current task gives up the processor: it goes, ready, to the back of
/// the ready queue and no task is current. Answers its pid.
pub fn yield_current(processor: &mut Processor<TaskControlBlock>, manager: &mut TaskManager<TaskControlBlock>) -> (r: usize)
    requires
        old(processor)@ is Some,
    ensures
        final(processor)@ is None,
        r == old(processor)@->0.pid,
        final(manager)@ == old(manager)@.push((r, made_ready(old(processor)@->0))),
{
    let mut task = processor.take_current().unwrap();
    task.task_status = TaskStatus::Ready;
    let pid = task.pid;
    manager.add(pid, task);
    pid
}

/// The time slice of the current task is over: the slice is counted, the task
/// goes, ready, to the back of the ready queue and no task is current.
/// Answers the cycle count at which the timer must fire next, a tick after `now`.
pub fn preempt_current(processor: &mut Processor<TaskControlBlock>, manager: &mut TaskManager<TaskControlBlock>,
    now: usize) -> (r: usize)
    requires
        old(processor)@ is Some,
        old(processor)@->0.count_time < usize::MAX,
        now + CLOCK_FREQ / TICKS_PER_SEC <= usize::MAX,
    ensures
        final(processor)@ is None,
        final(manager)@ == old(manager)@.push((old(processor)@->0.pid, slice_over(old(processor)@->0))),
        r == now + CLOCK_FREQ / TICKS_PER_SEC,
{
    let mut task = processor.take_current().unwrap();
    task.count_time = task.count_time + 1;
    task.task_status = TaskStatus::Ready;
    let pid = task.pid;
    manager.add(pid, task);
    now + CLOCK_FREQ / TICKS_PER_SEC
}

/// The current task is ended with `exit_code` (a bad access or an illegal
/// instruction): it exits as `exit_current` says, no task is current and it is
/// not queued again. Answers the exited task.
pub fn kill_current(processor: &mut Processor<TaskControlBlock>, exit_code: i32, initproc_children: &mut Vec<usize>,
    initproc_pid: usize, manager: &mut TaskManager<TaskControlBlock>, allocator: &mut StackFrameAllocator)
    -> (r: TaskControlBlock)
    requires
        old(processor)@ is Some,
        old(processor)@->0.memory_set.wf(),
        old(allocator).wf(),
        old(processor)@->0.memory_set.frames_in_use(old(allocator)),
    ensures
        final(processor)@ is None,
        r.pid == old(processor)@->0.pid,
        r.task_status == TaskStatus::Exited,
        r.exit_code == exit_code,
        r.children@.len() == 0,
        r.memory_set.infos().len() == 0,
        final(initproc_children)@ == old(initproc_children)@ + old(processor)@->0.children@,
        final(manager)@.len() == old(manager)@.len(),
        forall|k: int| 0 <= k < old(manager)@.len() ==>
            #[trigger] final(manager)@[k] == reparented(old(manager)@[k], old(processor)@->0.children@, initproc_pid),
        final(allocator).wf(),
        forall|p: u64| final(allocator).in_use(p) <==> (old(allocator).in_use(p)
            && (p == old(processor)@->0.memory_set.root() || !old(processor)@->0.memory_set.frames().contains(p))),
{
    let mut task = processor.take_current().unwrap();
    exit_current(&mut task, exit_code, initproc_children, initproc_pid, manager, allocator);
    task
}

/// What follows system call outcome `outcome` of `task`, which was taken off
/// the processor for the call and whose user space resumes at `sepc`;
/// `written` is what the open file answered, for a write:
/// - a returned value, or the count written, lands in `a0` of `cx` and the
///   task is current again;
/// - a yield answers 0 and sends the task, as it is, to the back of the ready
///   queue, with no task current;
/// - an exit leaves no task current and queues nothing: the task never runs
///   again.
pub fn finish_syscall(processor: &mut Processor<TaskControlBlock>, manager: &mut TaskManager<TaskControlBlock>,
    task: TaskControlBlock, cx: &mut TrapContext, sepc: u64, outcome: &SyscallOutcome, written: usize)
    requires
        old(processor)@ is None,
    ensures
        match *outcome {
            SyscallOutcome::Return(v) => {
                &&& final(processor)@ == Some(task)
                &&& final(manager)@ == old(manager)@
                &&& TrapContext::resumed_with(*old(cx), *final(cx), sepc, v as u64)
            },
            SyscallOutcome::Write(_, _) => {
                &&& final(processor)@ == Some(task)
                &&& final(manager)@ == old(manager)@
                &&& TrapContext::resumed_with(*old(cx), *final(cx), sepc, written as u64)
            },
            SyscallOutcome::Yield => {
                &&& final(processor)@ is None
                &&& final(manager)@ == old(manager)@.push((task.pid, task))
                &&& TrapContext::resumed_with(*old(cx), *final(cx), sepc, 0)
            },
            SyscallOutcome::Exit => {
                &&& final(processor)@ is None
                &&& final(manager)@ == old(manager)@
                &&& *final(cx) == *old(cx)
            },
        },
{
    match outcome {
        SyscallOutcome::Return(v) => {
            cx.resume_with(sepc, *v as u64);
            processor.set_current(task);
        },
        SyscallOutcome::Write(_, _) => {
            cx.resume_with(sepc, written as u64);
            processor.set_current(task);
        },
        SyscallOutcome::Yield => {
            cx.resume_with(sepc, 0);
            let pid = task.pid;
            manager.add(pid, task);
        },
        SyscallOutcome::Exit => {},
    }
}

} // verus!
