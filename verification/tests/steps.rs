use rcore_os::memory::memory_set::KernelLayout;
use rcore_os::syscall::dispatch::SyscallOutcome;
use rcore_os::memory::page_table::UserBuffer;
use rcore_os::task::manager::TaskManager;
use rcore_os::task::processor::{finish_syscall, kill_current, preempt_current, yield_current, Processor};
use rcore_os::task::task::{TaskControlBlock, TaskStatus};
use rcore_os::trap::TrapContext;

fn put_u16(v: &mut Vec<u8>, at: usize, x: u16) {
    v[at..at + 2].copy_from_slice(&x.to_le_bytes());
}

fn put_u32(v: &mut Vec<u8>, at: usize, x: u32) {
    v[at..at + 4].copy_from_slice(&x.to_le_bytes());
}

fn put_u64(v: &mut Vec<u8>, at: usize, x: u64) {
    v[at..at + 8].copy_from_slice(&x.to_le_bytes());
}

fn elf_image() -> Vec<u8> {
    let mut v = vec![0u8; 124];
    v[0..4].copy_from_slice(&[0x7f, b'E', b'L', b'F']);
    v[4] = 2;
    v[5] = 1;
    v[6] = 1;
    put_u16(&mut v, 16, 2);
    put_u16(&mut v, 18, 0xf3);
    put_u32(&mut v, 20, 1);
    put_u64(&mut v, 24, 0x10000);
    put_u64(&mut v, 32, 64);
    put_u16(&mut v, 52, 64);
    put_u16(&mut v, 54, 56);
    put_u16(&mut v, 56, 1);
    put_u32(&mut v, 64, 1);
    put_u32(&mut v, 68, 7);
    put_u64(&mut v, 72, 120);
    put_u64(&mut v, 80, 0x10000);
    put_u64(&mut v, 88, 0x10000);
    put_u64(&mut v, 96, 4);
    put_u64(&mut v, 104, 4);
    put_u64(&mut v, 112, 0x1000);
    v[120..124].copy_from_slice(&[1, 2, 3, 4]);
    v
}

fn layout() -> KernelLayout {
    KernelLayout {
        stext: 0x8020_0000,
        etext: 0x8020_3000,
        srodata: 0x8020_3000,
        erodata: 0x8020_4000,
        sdata: 0x8020_4000,
        edata: 0x8020_5000,
        sbss_with_stack: 0x8020_5000,
        ebss: 0x8020_8000,
        ekernel: 0x8020_8000,
        strampoline: 0x8020_1000,
    }
}

fn context() -> TrapContext {
    let mut x = [0u64; 32];
    for i in 0..32 {
        x[i] = 100 + i as u64;
    }
    TrapContext { x, sstatus: 0x20, sepc: 0x1000, kernel_satp: 7, kernel_sp: 8, trap_handler: 9 }
}

#[test]
fn resume_with_sets_a0_and_sepc_only() {
    let mut cx = context();
    cx.resume_with(0x1004, 42);
    assert_eq!(cx.sepc, 0x1004);
    assert_eq!(cx.x[10], 42);
    for i in 0..32 {
        if i != 10 {
            assert_eq!(cx.x[i], 100 + i as u64);
        }
    }
    assert_eq!((cx.sstatus, cx.kernel_satp, cx.kernel_sp, cx.trap_handler), (0x20, 7, 8, 9));
}

#[test]
fn yield_and_preempt_queue_the_task_last() {
    let (mut a, mut kernel) = rcore_os::memory::init(&layout());
    let (mut t, _) = TaskControlBlock::new(&elf_image(), 0, 1, 0x8020_1000, &mut kernel, &mut a, 0x8020_2000, 0x20).ok().unwrap();
    let (t2, _) = TaskControlBlock::new(&elf_image(), 1, 2, 0x8020_1000, &mut kernel, &mut a, 0x8020_2000, 0x20).ok().unwrap();
    t.task_status = TaskStatus::Running;
    let mut q: TaskManager<TaskControlBlock> = TaskManager::new();
    q.add(2, t2);
    let mut p: Processor<TaskControlBlock> = Processor::new();
    p.set_current(t);
    assert_eq!(yield_current(&mut p, &mut q), 1);
    assert!(p.current().is_none());
    assert_eq!(q.len(), 2);
    let (pid, first) = q.fetch().unwrap();
    assert_eq!((pid, first.pid), (2, 2));
    let (pid, mut back) = q.fetch().unwrap();
    assert_eq!(pid, 1);
    assert_eq!(back.task_status, TaskStatus::Ready);
    back.task_status = TaskStatus::Running;
    let count = back.count_time;
    p.set_current(back);
    q.add(2, first);
    let next = preempt_current(&mut p, &mut q, 1000);
    assert_eq!(next, 1000 + 125_000);
    assert!(p.current().is_none());
    let _ = q.fetch().unwrap();
    let (pid, back) = q.fetch().unwrap();
    assert_eq!(pid, 1);
    assert_eq!(back.count_time, count + 1);
    assert_eq!(back.task_status, TaskStatus::Ready);
}

#[test]
fn kill_leaves_no_current_task() {
    let (mut a, mut kernel) = rcore_os::memory::init(&layout());
    let (mut t, _) = TaskControlBlock::new(&elf_image(), 0, 1, 0x8020_1000, &mut kernel, &mut a, 0x8020_2000, 0x20).ok().unwrap();
    t.children.push(5);
    let mut q: TaskManager<TaskControlBlock> = TaskManager::new();
    let mut p: Processor<TaskControlBlock> = Processor::new();
    p.set_current(t);
    let mut init_children = vec![3];
    let dead = kill_current(&mut p, -1, &mut init_children, 0, &mut q, &mut a);
    assert!(p.current().is_none());
    assert_eq!(q.len(), 0);
    assert_eq!(dead.pid, 1);
    assert_eq!(dead.task_status, TaskStatus::Exited);
    assert_eq!(dead.exit_code, -1);
    assert!(dead.children.is_empty());
    assert_eq!(init_children, vec![3, 5]);
}

#[test]
fn finish_syscall_by_outcome() {
    let (mut a, mut kernel) = rcore_os::memory::init(&layout());
    let mut q: TaskManager<TaskControlBlock> = TaskManager::new();
    let mut p: Processor<TaskControlBlock> = Processor::new();
    // a returned value
    let (t, _) = TaskControlBlock::new(&elf_image(), 0, 1, 0x8020_1000, &mut kernel, &mut a, 0x8020_2000, 0x20).ok().unwrap();
    let mut cx = context();
    finish_syscall(&mut p, &mut q, t, &mut cx, 0x1004, &SyscallOutcome::Return(-1), 0);
    assert_eq!(cx.x[10], u64::MAX);
    assert_eq!(cx.sepc, 0x1004);
    assert_eq!(cx.x[11], 111);
    assert_eq!(p.current().unwrap().pid, 1);
    // a write answers the count written
    let t = p.take_current().unwrap();
    let mut cx = context();
    finish_syscall(&mut p, &mut q, t, &mut cx, 0x1004, &SyscallOutcome::Write(1, UserBuffer::new(vec![1, 2])), 2);
    assert_eq!(cx.x[10], 2);
    // a yield answers 0 and queues the task last
    let t = p.take_current().unwrap();
    let mut cx = context();
    finish_syscall(&mut p, &mut q, t, &mut cx, 0x1004, &SyscallOutcome::Yield, 0);
    assert_eq!(cx.x[10], 0);
    assert!(p.current().is_none());
    assert_eq!(q.len(), 1);
    // an exit leaves nothing current and queues nothing
    let (_, t) = q.fetch().unwrap();
    let mut cx = context();
    finish_syscall(&mut p, &mut q, t, &mut cx, 0x1004, &SyscallOutcome::Exit, 0);
    assert!(p.current().is_none());
    assert_eq!(q.len(), 0);
    assert_eq!(cx.x[10], 110);
    assert_eq!(cx.sepc, 0x1000);
}

#[test]
fn make_pipe_pairs_the_ends() {
    let (mut buf, r, w) = rcore_os::fs::pipe::make_pipe();
    assert!(r.readable() && !r.writable());
    assert!(!w.readable() && w.writable());
    assert!(!buf.all_write_ends_closed());
    assert_eq!(buf.available_read(), 0);
    let mut out = vec![0u8; 4];
    // the write end is open: a read of an empty pipe waits
    let closed = buf.all_write_ends_closed();
    assert_eq!(r.read_step(&mut buf, &mut out, 0, closed), rcore_os::fs::pipe::PipeStep::Suspend);
    // once it is closed, the read ends
    buf.close_write_end();
    let closed = buf.all_write_ends_closed();
    assert!(closed);
    assert_eq!(r.read_step(&mut buf, &mut out, 0, closed), rcore_os::fs::pipe::PipeStep::Done(0));
}
