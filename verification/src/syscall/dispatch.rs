use vstd::prelude::*;
use crate::memory::address::{VirtAddr, va_of};
use crate::memory::frame_allocator::StackFrameAllocator;
use crate::memory::memory_set::MemorySet;
use crate::memory::page_table::UserBuffer;
use crate::task::processor::{exit_current, suspend_current, reparented};
use crate::task::manager::TaskManager;
use crate::task::task::{TaskControlBlock, TaskStatus};
use crate::syscall::fs::{sys_write, user_readable, fd_file};
use crate::syscall::mem::{sys_mmap, sys_munmap, mmap_answer, munmap_answer, mmap_infos, munmap_infos, mmap_can_run, check_mmap};
use crate::syscall::process::{sys_get_time, sys_set_priority, time_val_bytes, get_time_val_spec};

verus! {

pub const SYSCALL_WRITE: usize = 64;
pub const SYSCALL_EXIT: usize = 93;
pub const SYSCALL_YIELD: usize = 124;
pub const SYSCALL_SET_PRIORITY: usize = 140;
pub const SYSCALL_GET_TIME: usize = 169;
pub const SYSCALL_MUNMAP: usize = 215;
pub const SYSCALL_MMAP: usize = 222;

/// What a system call leaves for the trap handler to do.
pub enum SyscallOutcome {
    /// The call is done: this value goes back to user space.
    Return(isize),
    /// The bytes go to the open file; what it answers goes back to user space.
    Write(usize, UserBuffer),
    /// The task has exited: the next task runs.
    Exit,
    /// The task gave up the processor: once it runs again, 0 goes back.
    Yield,
}

/// Whether `syscall_id` is the number of a system call the kernel serves.
pub open spec fn known_syscall(syscall_id: usize) -> bool {
    syscall_id == SYSCALL_WRITE || syscall_id == SYSCALL_EXIT || syscall_id == SYSCALL_YIELD
        || syscall_id == SYSCALL_SET_PRIORITY || syscall_id == SYSCALL_GET_TIME || syscall_id == SYSCALL_MMAP
        || syscall_id == SYSCALL_MUNMAP
}

/// Whether system call `syscall_id` with arguments `args` can be carried
/// out for `task`: the kernel serves that call (it stops on any other), a time value can be written where it is asked for, an
/// accepted mmap request does not overflow and, unless its pages meet an
/// area, can be mapped, and an munmap request at an aligned address does
/// not overflow.
pub open spec fn syscall_can_run(task: &TaskControlBlock, allocator: &StackFrameAllocator, syscall_id: usize,
    args: [usize; 3]) -> bool {
    &&& known_syscall(syscall_id)
    &&& syscall_id == SYSCALL_GET_TIME ==> task.memory_set.user_bytes(va_of(args[0 as int] as int), 16) is Some
    &&& syscall_id == SYSCALL_MMAP ==> mmap_can_run(&task.memory_set, allocator.free_count() as int,
        args[0 as int], args[1 as int], args[2 as int])
    &&& syscall_id == SYSCALL_MUNMAP ==> (args[0 as int] & 0xfff == 0 ==> args[0 as int] + args[1 as int] <= usize::MAX)
}

/// Whether `syscall` can carry out system call `syscall_id` with `args` for
/// `task`.
pub fn check_syscall(task: &TaskControlBlock, allocator: &StackFrameAllocator, syscall_id: usize, args: [usize; 3]) -> (r: bool)
    requires
        task.memory_set.wf(),
        allocator.wf(),
    ensures
        r == syscall_can_run(task, allocator, syscall_id, args),
{
    if syscall_id == SYSCALL_GET_TIME {
        let va = VirtAddr::from_u64(args[0] as u64);
        proof {
            assert(va.0 + 16 <= u64::MAX);
        }
        match task.memory_set.read_user_bytes(va.0, 16) {
            Some(_) => true,
            None => false,
        }
    } else if syscall_id == SYSCALL_MMAP {
        check_mmap(&task.memory_set, allocator, args[0], args[1], args[2])
    } else if syscall_id == SYSCALL_MUNMAP {
        args[0] & 0xfff != 0 || args[1] <= usize::MAX - args[0]
    } else {
        syscall_id == SYSCALL_WRITE || syscall_id == SYSCALL_EXIT || syscall_id == SYSCALL_YIELD
            || syscall_id == SYSCALL_SET_PRIORITY
    }
}

/// The kernel serves exactly write (64), exit (93), yield (124),
/// set_priority (140), get_time (169), munmap (215) and mmap (222); a write,
/// an exit, a yield and a priority change can always be carried out.
pub proof fn lemma_served_syscalls(syscall_id: usize, task: &TaskControlBlock, allocator: &StackFrameAllocator,
    args: [usize; 3])
    ensures
        known_syscall(syscall_id) <==> (syscall_id == 64 || syscall_id == 93 || syscall_id == 124 || syscall_id == 140
            || syscall_id == 169 || syscall_id == 215 || syscall_id == 222),
        syscall_can_run(task, allocator, 64, args),
        syscall_can_run(task, allocator, 93, args),
        syscall_can_run(task, allocator, 124, args),
        syscall_can_run(task, allocator, 140, args),
{
}

/// Whether the kernel serves system call `syscall_id`.
pub fn is_known_syscall(syscall_id: usize) -> (r: bool)
    ensures
        r == known_syscall(syscall_id),
{
    syscall_id == SYSCALL_WRITE || syscall_id == SYSCALL_EXIT || syscall_id == SYSCALL_YIELD
        || syscall_id == SYSCALL_SET_PRIORITY || syscall_id == SYSCALL_GET_TIME || syscall_id == SYSCALL_MMAP
        || syscall_id == SYSCALL_MUNMAP
}

/// Gives up the processor: the task becomes ready again, and 0 goes back
/// to it once it runs again.
pub fn sys_yield(task: &mut TaskControlBlock) -> (r: isize)
    ensures
        r == 0,
        final(task).task_status == TaskStatus::Ready,
        final(task).memory_set == old(task).memory_set,
        final(task).fd_table == old(task).fd_table,
        final(task).pass == old(task).pass,
{
    suspend_current(task);
    0
}

/// Ends the task with `exit_code`: it becomes exited, its children go to
/// `initproc_children`, and its data frames go back to the allocator.
pub fn sys_exit(task: &mut TaskControlBlock, exit_code: i32, initproc_children: &mut Vec<usize>,
    initproc_pid: usize, manager: &mut TaskManager<TaskControlBlock>, allocator: &mut StackFrameAllocator)
    requires
        old(task).memory_set.wf(),
        old(allocator).wf(),
        old(task).memory_set.frames_in_use(old(allocator)),
    ensures
        final(task).task_status == TaskStatus::Exited,
        final(task).exit_code == exit_code,
        final(task).children@.len() == 0,
        final(initproc_children)@ == old(initproc_children)@ + old(task).children@,
        final(manager)@.len() == old(manager)@.len(),
        forall|k: int| 0 <= k < old(manager)@.len() ==>
            #[trigger] final(manager)@[k] == reparented(old(manager)@[k], old(task).children@, initproc_pid),
        final(task).memory_set.infos().len() == 0,
        final(allocator).wf(),
        forall|p: u64| final(allocator).in_use(p) <==>
            (old(allocator).in_use(p) && (p == old(task).memory_set.root() || !old(task).memory_set.frames().contains(p))),
{
    exit_current(task, exit_code, initproc_children, initproc_pid, manager, allocator);
}

/// Carries out system call `syscall_id` with arguments `args` for `task`,
/// `now` being the cycle count.
pub fn syscall(task: &mut TaskControlBlock, allocator: &mut StackFrameAllocator, initproc_children: &mut Vec<usize>,
    initproc_pid: usize, manager: &mut TaskManager<TaskControlBlock>, syscall_id: usize, args: [usize; 3], now: usize)
    -> (r: SyscallOutcome)
    requires
        old(task).memory_set.wf(),
        old(allocator).wf(),
        old(task).memory_set.frames_in_use(old(allocator)),
        syscall_can_run(old(task), old(allocator), syscall_id, args),
    ensures
        final(allocator).wf(),
        syscall_id != SYSCALL_EXIT ==> final(task).memory_set.wf()
            && final(task).memory_set.frames_in_use(final(allocator))
            && final(initproc_children)@ == old(initproc_children)@
            && final(manager)@ == old(manager)@,
        syscall_id == SYSCALL_WRITE ==> {
            let ok = user_readable(&old(task).memory_set, args[1 as int], args[2 as int])
                && fd_file(old(task), args[0 as int]) is Some
                && old(task).memory_set.user_bytes(va_of(args[1 as int] as int), args[2 as int] as int) is Some;
            &&& *final(task) == *old(task)
            &&& ok ==> (r matches SyscallOutcome::Write(f, b) && f == fd_file(old(task), args[0 as int])->0
                && b.bytes@ == old(task).memory_set.user_bytes(va_of(args[1 as int] as int), args[2 as int] as int)->0)
            &&& !ok ==> r == SyscallOutcome::Return(-1isize)
        },
        syscall_id == SYSCALL_EXIT ==> {
            &&& r == SyscallOutcome::Exit
            &&& final(task).task_status == TaskStatus::Exited
            &&& final(task).exit_code == args[0 as int] as i32
            &&& final(task).memory_set.infos().len() == 0
            &&& final(initproc_children)@ == old(initproc_children)@ + old(task).children@
            &&& final(manager)@.len() == old(manager)@.len()
            &&& forall|k: int| 0 <= k < old(manager)@.len() ==>
                #[trigger] final(manager)@[k] == reparented(old(manager)@[k], old(task).children@, initproc_pid)
            &&& forall|p: u64| final(allocator).in_use(p) <==>
                (old(allocator).in_use(p) && (p == old(task).memory_set.root() || !old(task).memory_set.frames().contains(p)))
        },
        syscall_id == SYSCALL_YIELD ==> r == SyscallOutcome::Yield
            && final(task).task_status == TaskStatus::Ready
            && final(task).memory_set == old(task).memory_set,
        syscall_id == SYSCALL_SET_PRIORITY ==> {
            let pri = args[0 as int] as isize;
            &&& r == SyscallOutcome::Return(if pri >= 2 { pri } else { -1isize })
            &&& pri >= 2 ==> final(task).priority == pri
            &&& pri < 2 ==> final(task).priority == old(task).priority
            &&& final(task).memory_set == old(task).memory_set
        },
        syscall_id == SYSCALL_GET_TIME ==> {
            let ts = va_of(args[0 as int] as int);
            &&& r == SyscallOutcome::Return(0)
            &&& final(task).memory_set.user_bytes(ts, 16) == Some(time_val_bytes(get_time_val_spec(now)))
            &&& final(task).memory_set.infos() == old(task).memory_set.infos()
            &&& final(task).memory_set.pt() == old(task).memory_set.pt()
        },
        syscall_id == SYSCALL_MMAP ==> r == SyscallOutcome::Return(mmap_answer(&old(task).memory_set,
            args[0 as int], args[1 as int], args[2 as int]))
            && final(task).memory_set.infos() == mmap_infos(&old(task).memory_set,
            args[0 as int], args[1 as int], args[2 as int]),
        syscall_id == SYSCALL_MUNMAP ==> r == SyscallOutcome::Return(
            munmap_answer(old(task).memory_set.infos(), args[0 as int], args[1 as int]))
            && final(task).memory_set.infos() == munmap_infos(old(task).memory_set.infos(), args[0 as int], args[1 as int]),
{
    if syscall_id == SYSCALL_WRITE {
        match sys_write(task, args[0], args[1], args[2]) {
            Ok((f, b)) => SyscallOutcome::Write(f, b),
            Err(e) => SyscallOutcome::Return(e),
        }
    } else if syscall_id == SYSCALL_EXIT {
        sys_exit(task, args[0] as i32, initproc_children, initproc_pid, manager, allocator);
        SyscallOutcome::Exit
    } else if syscall_id == SYSCALL_YIELD {
        sys_yield(task);
        SyscallOutcome::Yield
    } else if syscall_id == SYSCALL_SET_PRIORITY {
        SyscallOutcome::Return(sys_set_priority(task, args[0] as isize))
    } else if syscall_id == SYSCALL_GET_TIME {
        SyscallOutcome::Return(sys_get_time(&mut task.memory_set, args[0], now))
    } else if syscall_id == SYSCALL_MMAP {
        SyscallOutcome::Return(sys_mmap(&mut task.memory_set, allocator, args[0], args[1], args[2]))
    } else {
        SyscallOutcome::Return(sys_munmap(&mut task.memory_set, allocator, args[0], args[1]))
    }
}

} // verus!
