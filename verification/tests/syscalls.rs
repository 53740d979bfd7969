use rcore_os::config::BIG_STRIDE;
use rcore_os::memory::address::{PhysPageNum, VirtAddr, VirtPageNum};
use rcore_os::memory::frame_allocator::StackFrameAllocator;
use rcore_os::memory::memory_set::{ElfError, KernelLayout, MapPermission, MemorySet};
use rcore_os::memory::page_table::UserBuffer;
use rcore_os::syscall::dispatch::{check_syscall, syscall, sys_exit, sys_yield, SyscallOutcome, SYSCALL_EXIT, SYSCALL_GET_TIME,
    SYSCALL_MMAP, SYSCALL_MUNMAP, SYSCALL_SET_PRIORITY, SYSCALL_WRITE, SYSCALL_YIELD};
use rcore_os::syscall::fs::{bytes_eq, security_check, store_user_buffer, sys_close, sys_dup, sys_fstat, sys_linkat,
    sys_mail_read, sys_mail_write, sys_mail_write_to, sys_open, sys_pipe, sys_read, sys_unlinkat, sys_write};
use rcore_os::syscall::mem::{check_mmap, sys_mmap, sys_munmap};
use rcore_os::syscall::process::{sys_get_time, sys_set_priority, u64_le_bytes};
use rcore_os::task::mail::MailBox;
use rcore_os::task::manager::TaskManager;
use rcore_os::task::task::{TaskControlBlock, TaskError, TaskStatus, DEFAULT_PRIORITY, STDIN_FILE, STDOUT_FILE};

fn put_u16(v: &mut Vec<u8>, at: usize, x: u16) {
    v[at..at + 2].copy_from_slice(&x.to_le_bytes());
}

fn put_u32(v: &mut Vec<u8>, at: usize, x: u32) {
    v[at..at + 4].copy_from_slice(&x.to_le_bytes());
}

fn put_u64(v: &mut Vec<u8>, at: usize, x: u64) {
    v[at..at + 8].copy_from_slice(&x.to_le_bytes());
}

/// A 64-bit ELF file with one read-write-execute segment of 4 bytes at 0x10000.
fn elf_image() -> Vec<u8> {
    let mut v = vec![0u8; 124];
    v[0..4].copy_from_slice(&[0x7f, b'E', b'L', b'F']);
    v[4] = 2;
    v[5] = 1;
    v[6] = 1;
    put_u16(&mut v, 16, 2);
    put_u16(&mut v, 18, 0xf3);
    put_u32(&mut v, 20, 1);
    put_u64(&mut v, 24, 0x10000);
    put_u64(&mut v, 32, 64);
    put_u16(&mut v, 52, 64);
    put_u16(&mut v, 54, 56);
    put_u16(&mut v, 56, 1);
    put_u32(&mut v, 64, 1);
    put_u32(&mut v, 68, 7);
    put_u64(&mut v, 72, 120);
    put_u64(&mut v, 80, 0x10000);
    put_u64(&mut v, 88, 0x10000);
    put_u64(&mut v, 96, 4);
    put_u64(&mut v, 104, 4);
    put_u64(&mut v, 112, 0x1000);
    v[120..124].copy_from_slice(&[1, 2, 3, 4]);
    v
}

fn layout() -> KernelLayout {
    KernelLayout {
        stext: 0x8020_0000,
        etext: 0x8020_3000,
        srodata: 0x8020_3000,
        erodata: 0x8020_4000,
        sdata: 0x8020_4000,
        edata: 0x8020_5000,
        sbss_with_stack: 0x8020_5000,
        ebss: 0x8020_8000,
        ekernel: 0x8020_8000,
        strampoline: 0x8020_1000,
    }
}

/// A fresh task (pid 1) in a fresh kernel, with the allocator.
fn task() -> (TaskControlBlock, StackFrameAllocator, MemorySet) {
    let (mut a, mut kernel) = rcore_os::memory::init(&layout());
    let (t, setup) = TaskControlBlock::new(&elf_image(), 0, 1, 0x8020_1000, &mut kernel, &mut a, HANDLER, SSTATUS).ok().unwrap();
    assert_eq!(setup.entry_point, 0x10000);
    (t, a, kernel)
}

/// A trap handler address and an `sstatus` value for new tasks.
const HANDLER: u64 = 0x8020_2000;
const SSTATUS: u64 = 0x20;

/// The user stack's lowest page, mapped read-write for user space.
const STACK: usize = 0x12000;

#[test]
fn new_task_state() {
    let (t, _, kernel) = task();
    assert_eq!(t.pid, 1);
    assert_eq!(t.task_status, TaskStatus::Ready);
    assert_eq!(t.priority, DEFAULT_PRIORITY);
    assert_eq!(t.stride, BIG_STRIDE / 16);
    assert_eq!(t.pass, 0);
    assert_eq!(t.fd_table, vec![Some(STDIN_FILE), Some(STDOUT_FILE), Some(STDOUT_FILE)]);
    assert_eq!(t.base_size, 0x14000);
    assert_eq!(t.get_user_token(), t.memory_set.token());
    // The kernel stack of app 0 is mapped just below the trampoline.
    assert!(kernel.translate(VirtPageNum(0x7ff_fffd)).unwrap().writable());
    assert!(kernel.translate(VirtPageNum(0x7ff_fffe)).is_some());
    assert!(kernel.translate(VirtPageNum(0x7ff_fffc)).is_none());
    assert_eq!(t.trap_cx_ppn, t.memory_set.translate(VirtPageNum(0x7ff_fffe)).unwrap().ppn());
    // The trap context: sp, then sstatus, entry, kernel satp, kernel stack top, handler.
    let cx = t.memory_set.read_user_bytes(0x7f_ffff_e000, 296).unwrap();
    let word = |i: usize| u64::from_le_bytes(cx[8 * i..8 * i + 8].try_into().unwrap());
    assert_eq!(word(0), 0);
    assert_eq!(word(2), 0x14000);
    assert_eq!(word(32), SSTATUS);
    assert_eq!(word(33), 0x10000);
    assert_eq!(word(34), kernel.token());
    assert_eq!(word(35), 0xffff_ffff_ffff_f000);
    assert_eq!(word(36), HANDLER);
}

#[test]
fn a_second_task_on_the_same_kernel_stack_is_refused() {
    let (mut a, mut kernel) = rcore_os::memory::init(&layout());
    assert!(TaskControlBlock::new(&elf_image(), 3, 1, 0x8020_1000, &mut kernel, &mut a, HANDLER, SSTATUS).is_ok());
    match TaskControlBlock::new(&elf_image(), 3, 2, 0x8020_1000, &mut kernel, &mut a, HANDLER, SSTATUS) {
        Err(TaskError::KernelStack) => {}
        _ => panic!("expected the kernel stack to be taken"),
    }
    match TaskControlBlock::new(&[0u8; 8], 4, 3, 0x8020_1000, &mut kernel, &mut a, HANDLER, SSTATUS) {
        Err(TaskError::Elf(e)) => assert_eq!(e, ElfError::Malformed),
        _ => panic!("expected a malformed image"),
    }
}

#[test]
fn write_hands_out_the_user_bytes() {
    let (mut t, _, _) = task();
    assert!(t.memory_set.write_user_bytes(STACK as u64, b"hi!"));
    match sys_write(&t, 1, STACK, 3) {
        Ok((file, buf)) => {
            assert_eq!(file, STDOUT_FILE);
            assert_eq!(buf.bytes, b"hi!".to_vec());
        }
        Err(_) => panic!("write refused"),
    }
    // Unmapped memory, a closed descriptor, a descriptor out of range.
    assert_eq!(sys_write(&t, 1, 0x11000, 3).err(), Some(-1));
    assert_eq!(sys_write(&t, 9, STACK, 3).err(), Some(-1));
    assert_eq!(sys_close(&mut t, 1), 0);
    assert_eq!(sys_write(&t, 1, STACK, 3).err(), Some(-1));
}

#[test]
fn security_check_needs_user_readable_pages() {
    let (t, _, _) = task();
    assert!(security_check(&t.memory_set, STACK, 0x2000));
    assert!(security_check(&t.memory_set, 0x10000, 4));
    // The guard page below the stack, and the trap context (not user accessible).
    assert!(!security_check(&t.memory_set, 0x11ff0, 0x20));
    assert!(!security_check(&t.memory_set, 0x7f_ffff_e000, 8));
    assert!(!security_check(&t.memory_set, usize::MAX, 2));
}

#[test]
fn read_hands_out_the_buffer() {
    let (t, _, _) = task();
    let (file, buf) = sys_read(&t, 0, STACK, 5).ok().unwrap();
    assert_eq!(file, STDIN_FILE);
    assert_eq!(buf.len(), 5);
    assert_eq!(sys_read(&t, 3, STACK, 5).err(), Some(-1));
}

#[test]
fn stored_buffer_reads_back() {
    let (mut t, _, _) = task();
    let ub = UserBuffer::new(vec![5, 6, 7]);
    assert!(store_user_buffer(&mut t.memory_set, STACK + 10, &ub));
    assert_eq!(t.memory_set.read_user_bytes((STACK + 10) as u64, 3).unwrap(), vec![5, 6, 7]);
    assert!(!store_user_buffer(&mut t.memory_set, 0x11000, &ub));
}

#[test]
fn descriptors_open_close_dup() {
    let (mut t, _, _) = task();
    assert_eq!(sys_open(&mut t, None), -1);
    assert_eq!(sys_open(&mut t, Some(40)), 3);
    assert_eq!(sys_close(&mut t, 1), 0);
    assert_eq!(sys_close(&mut t, 1), -1);
    assert_eq!(sys_close(&mut t, 99), -1);
    // The lowest free descriptor is taken.
    assert_eq!(sys_dup(&mut t, 3), 1);
    assert_eq!(t.fd_table[1], Some(40));
    assert_eq!(sys_dup(&mut t, 7), -1);
    assert_eq!(sys_fstat(&t, 3), Ok(40));
    assert_eq!(sys_fstat(&t, 5), Err(-1));
}

#[test]
fn pipe_descriptors_are_stored_in_user_space() {
    let (mut t, _, _) = task();
    assert_eq!(sys_pipe(&mut t, STACK, 50, 51), 0);
    assert_eq!(t.fd_table[3], Some(50));
    assert_eq!(t.fd_table[4], Some(51));
    let mut expected = u64_le_bytes(3);
    expected.extend(u64_le_bytes(4));
    assert_eq!(t.memory_set.read_user_bytes(STACK as u64, 16).unwrap(), expected);
    assert_eq!(sys_pipe(&mut t, 0x11000, 52, 53), -1);
    assert_eq!(t.fd_table.len(), 5);
}

#[test]
fn mail_goes_from_sender_to_receiver_in_order() {
    let (mut t, _, _) = task();
    let (sender, _, _) = task();
    let mut s = sender;
    assert!(s.memory_set.write_user_bytes(STACK as u64, b"first mail"));
    assert!(s.memory_set.write_user_bytes((STACK + 100) as u64, b"second"));
    assert_eq!(sys_mail_write(&s.memory_set, &mut t.mail_box, STACK, 10), 10);
    assert_eq!(sys_mail_write(&s.memory_set, &mut t.mail_box, STACK + 100, 6), 6);
    // Reading with len 0 only says whether a mail waits.
    assert_eq!(sys_mail_read(&mut t, STACK, 0), 0);
    // A short buffer takes the start of the first mail.
    assert_eq!(sys_mail_read(&mut t, STACK, 5), 5);
    assert_eq!(t.memory_set.read_user_bytes(STACK as u64, 5).unwrap(), b"first".to_vec());
    assert_eq!(sys_mail_read(&mut t, STACK + 200, 100), 6);
    assert_eq!(t.memory_set.read_user_bytes((STACK + 200) as u64, 6).unwrap(), b"second".to_vec());
    assert_eq!(sys_mail_read(&mut t, STACK, 10), -1);
    assert_eq!(sys_mail_read(&mut t, STACK, 0), -1);
}

#[test]
fn mail_reaches_the_task_with_the_pid() {
    let (mut cur, _, _) = task();
    let (mut other, _, _) = task();
    other.pid = 2;
    let mut q: TaskManager<TaskControlBlock> = TaskManager::new();
    q.add(2, other);
    assert!(cur.memory_set.write_user_bytes(STACK as u64, b"ping"));
    assert_eq!(sys_mail_write_to(&mut cur, &mut q, 2, STACK, 4), 4);
    assert_eq!(sys_mail_write_to(&mut cur, &mut q, 1, STACK, 2), 2);
    assert_eq!(sys_mail_write_to(&mut cur, &mut q, 9, STACK, 4), -1);
    assert_eq!(sys_mail_write_to(&mut cur, &mut q, 2, 0x11000, 4), -1);
    assert_eq!(sys_mail_read(&mut cur, STACK + 100, 10), 2);
    assert_eq!(cur.memory_set.read_user_bytes((STACK + 100) as u64, 2).unwrap(), b"pi".to_vec());
    let (_, mut o) = q.fetch().unwrap();
    assert_eq!(sys_mail_read(&mut o, STACK, 10), 4);
    assert_eq!(o.memory_set.read_user_bytes(STACK as u64, 4).unwrap(), b"ping".to_vec());
    assert_eq!(sys_mail_read(&mut o, STACK, 10), -1);
}

#[test]
fn mail_is_cut_to_its_limit_and_mailbox_fills() {
    let (mut t, _, _) = task();
    let (s, _, _) = task();
    let mut mb = MailBox::new();
    assert_eq!(sys_mail_write(&s.memory_set, &mut mb, STACK, 1000), 256);
    for _ in 1..16 {
        assert_eq!(sys_mail_write(&s.memory_set, &mut mb, STACK, 1), 1);
    }
    assert_eq!(sys_mail_write(&s.memory_set, &mut mb, STACK, 1), -1);
    assert_eq!(sys_mail_write(&s.memory_set, &mut mb, STACK, 0), -1);
    assert_eq!(sys_mail_write(&s.memory_set, &mut t.mail_box, STACK, 0), 0);
    // Unreadable memory is refused.
    assert_eq!(sys_mail_write(&s.memory_set, &mut t.mail_box, 0x11000, 4), -1);
    assert!(t.mail_box.is_empty());
}

#[test]
fn link_paths_are_read_from_user_space() {
    let (mut t, _, _) = task();
    assert!(t.memory_set.write_user_bytes(STACK as u64, b"a.txt\0b.txt\0"));
    let (a, b) = sys_linkat(&t.memory_set, STACK, STACK + 6).ok().unwrap();
    assert_eq!(a, b"a.txt".to_vec());
    assert_eq!(b, b"b.txt".to_vec());
    assert_eq!(sys_linkat(&t.memory_set, STACK, STACK).err(), Some(-1));
    assert_eq!(sys_unlinkat(&t.memory_set, STACK + 6).ok().unwrap(), b"b.txt".to_vec());
    assert!(sys_unlinkat(&t.memory_set, 0x11000).is_err());
    assert!(bytes_eq(&vec![1, 2], &vec![1, 2]));
    assert!(!bytes_eq(&vec![1, 2], &vec![1, 3]));
    assert!(!bytes_eq(&vec![1, 2], &vec![1]));
}

#[test]
fn time_is_written_as_seconds_and_microseconds() {
    let (mut t, _, _) = task();
    // 2.5 seconds at 12.5 MHz.
    assert_eq!(sys_get_time(&mut t.memory_set, STACK, 31_250_000), 0);
    let mut expected = u64_le_bytes(2);
    expected.extend(u64_le_bytes(500_000));
    assert_eq!(t.memory_set.read_user_bytes(STACK as u64, 16).unwrap(), expected);
    // Nothing can be written on the guard page: the call cannot be carried out.
    let a = StackFrameAllocator::new();
    assert!(!check_syscall(&t, &a, SYSCALL_GET_TIME, [0x11000, 0, 0]));
    assert!(check_syscall(&t, &a, SYSCALL_GET_TIME, [STACK, 0, 0]));
}

#[test]
fn priority_sets_the_stride() {
    let (mut t, _, _) = task();
    assert_eq!(sys_set_priority(&mut t, 1), -1);
    assert_eq!(t.priority, 16);
    assert_eq!(sys_set_priority(&mut t, 4), 4);
    assert_eq!(t.priority, 4);
    assert_eq!(t.stride, BIG_STRIDE / 4);
    // Every accepted priority keeps the stride within half of BIG_STRIDE.
    assert_eq!(sys_set_priority(&mut t, 2), 2);
    assert!(t.stride <= BIG_STRIDE / 2);
}

#[test]
fn mmap_then_munmap() {
    let (mut t, mut a, _) = task();
    let before = t.memory_set.translate(VirtPageNum(0x20));
    assert!(before.is_none());
    // Read and write, 5000 bytes: two pages.
    assert_eq!(sys_mmap(&mut t.memory_set, &mut a, 0x20000, 5000, 3), 8192);
    let pte = t.memory_set.translate(VirtPageNum(0x21)).unwrap();
    assert!(pte.readable() && pte.writable() && pte.u_able() && !pte.executable());
    assert_eq!(t.memory_set.read_user_bytes(0x20000, 8).unwrap(), vec![0u8; 8]);
    // Overlapping, unaligned, no rights, a reserved bit.
    assert_eq!(sys_mmap(&mut t.memory_set, &mut a, 0x21000, 10, 1), -1);
    assert_eq!(sys_mmap(&mut t.memory_set, &mut a, 0x30001, 10, 1), -1);
    assert_eq!(sys_mmap(&mut t.memory_set, &mut a, 0x30000, 10, 0), -1);
    assert_eq!(sys_mmap(&mut t.memory_set, &mut a, 0x30000, 10, 9), -1);
    // Unmapping needs exactly the same pages.
    assert_eq!(sys_munmap(&mut t.memory_set, &mut a, 0x20000, 4096), -1);
    assert_eq!(sys_munmap(&mut t.memory_set, &mut a, 0x20001, 8192), -1);
    assert_eq!(sys_munmap(&mut t.memory_set, &mut a, 0x20000, 8192), 8192);
    assert!(t.memory_set.translate(VirtPageNum(0x20)).is_none());
    assert_eq!(sys_munmap(&mut t.memory_set, &mut a, 0x20000, 8192), -1);
}

#[test]
fn syscall_dispatch() {
    let (mut t, mut a, _) = task();
    let mut q: TaskManager<TaskControlBlock> = TaskManager::new();
    let mut init_children = Vec::new();
    assert!(t.memory_set.write_user_bytes(STACK as u64, b"ok"));
    match syscall(&mut t, &mut a, &mut init_children, 0, &mut q, SYSCALL_WRITE, [1, STACK, 2], 0) {
        SyscallOutcome::Write(f, b) => {
            assert_eq!(f, STDOUT_FILE);
            assert_eq!(b.bytes, b"ok".to_vec());
        }
        _ => panic!("expected a write"),
    }
    assert!(matches!(syscall(&mut t, &mut a, &mut init_children, 0, &mut q, SYSCALL_WRITE, [1, 0x11000, 2], 0), SyscallOutcome::Return(-1)));
    assert!(matches!(syscall(&mut t, &mut a, &mut init_children, 0, &mut q, SYSCALL_SET_PRIORITY, [5, 0, 0], 0), SyscallOutcome::Return(5)));
    assert_eq!(t.priority, 5);
    assert!(matches!(syscall(&mut t, &mut a, &mut init_children, 0, &mut q, SYSCALL_GET_TIME, [STACK, 0, 0], 12_500_000), SyscallOutcome::Return(0)));
    assert_eq!(t.memory_set.read_user_bytes(STACK as u64, 8).unwrap(), u64_le_bytes(1));
    assert!(matches!(syscall(&mut t, &mut a, &mut init_children, 0, &mut q, SYSCALL_MMAP, [0x40000, 4096, 1], 0), SyscallOutcome::Return(4096)));
    assert!(matches!(syscall(&mut t, &mut a, &mut init_children, 0, &mut q, SYSCALL_MUNMAP, [0x40000, 4096, 0], 0), SyscallOutcome::Return(4096)));
    assert!(matches!(syscall(&mut t, &mut a, &mut init_children, 0, &mut q, SYSCALL_YIELD, [0, 0, 0], 0), SyscallOutcome::Yield));
    assert_eq!(t.task_status, TaskStatus::Ready);
    assert!(!check_syscall(&t, &a, 999, [0, 0, 0]));
    assert!(!rcore_os::syscall::dispatch::is_known_syscall(999));
    assert!(rcore_os::syscall::dispatch::is_known_syscall(SYSCALL_YIELD));
    assert!(!check_syscall(&t, &a, SYSCALL_MUNMAP, [0x1000, usize::MAX, 0]));
    assert!(check_syscall(&t, &a, SYSCALL_MUNMAP, [0x1001, usize::MAX, 0]));
    t.children.push(7);
    assert!(matches!(syscall(&mut t, &mut a, &mut init_children, 0, &mut q, SYSCALL_EXIT, [3, 0, 0], 0), SyscallOutcome::Exit));
    assert_eq!(t.task_status, TaskStatus::Exited);
    assert_eq!(t.exit_code, 3);
    assert_eq!(init_children, vec![7]);
    assert!(t.children.is_empty());
}

#[test]
fn exit_and_yield() {
    let (mut t, mut a, _) = task();
    assert_eq!(sys_yield(&mut t), 0);
    assert_eq!(t.task_status, TaskStatus::Ready);
    let mut init_children = vec![1];
    // Child 4 waits in the ready queue; task 6 is no child.
    let (mut c4, _, _) = task();
    c4.pid = 4;
    c4.parent = Some(1);
    let (mut c6, _, _) = task();
    c6.pid = 6;
    let mut q: TaskManager<TaskControlBlock> = TaskManager::new();
    q.add(4, c4);
    q.add(6, c6);
    t.children.push(4);
    t.children.push(5);
    sys_exit(&mut t, -2, &mut init_children, 0, &mut q, &mut a);
    assert_eq!(t.exit_code, -2);
    assert_eq!(t.task_status, TaskStatus::Exited);
    assert_eq!(init_children, vec![1, 4, 5]);
    // The queued child now has the first task as its parent.
    assert_eq!(q.find(4).unwrap().parent, Some(0));
    assert_eq!(q.find(6).unwrap().parent, None);
    // The user space is gone.
    assert!(t.memory_set.read_byte(0x10000).is_none());
}

#[test]
fn mmap_and_munmap_through_a_fresh_space() {
    let mut a = StackFrameAllocator::new();
    a.init(PhysPageNum(0x90000), PhysPageNum(0x90010));
    let mut ms = MemorySet::new_bare(&mut a);
    ms.insert_framed_area(VirtAddr::from_u64(0x1000), VirtAddr::from_u64(0x2000), MapPermission::r(), &mut a);
    assert_eq!(sys_mmap(&mut ms, &mut a, 0x1000, 1, 1), -1);
    assert_eq!(sys_mmap(&mut ms, &mut a, 0x2000, 0x1000, 7), 4096);
    assert!(ms.translate(VirtPageNum(2)).unwrap().executable());
    // Not enough frames: the request cannot be carried out, unless it is refused anyway.
    assert!(!check_mmap(&ms, &a, 0x100000, 0x100000, 1));
    assert!(check_mmap(&ms, &a, 0x100001, 0x100000, 1));
    assert!(check_mmap(&ms, &a, 0x1000, 0x100000, 1));
    // An mmap onto the trampoline page, or one whose end overflows.
    assert!(!check_mmap(&ms, &a, 0x7f_ffff_f000, 0x1000, 1));
    assert!(!check_mmap(&ms, &a, usize::MAX - 0xfff, 0x2000, 1));
}
