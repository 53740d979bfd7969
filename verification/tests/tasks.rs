use rcore_os::batch::{AppManagerInner, KernelStack, UserStack};
use rcore_os::console::LogLevel;
use rcore_os::fs::pipe::{Pipe, PipeRingBuffer, PipeStep, RING_BUFFER_SIZE};
use rcore_os::fs::stdio::{Stdin, Stdout};
use rcore_os::fs::{Stat, StatMode, STAT_MODE_FILE, STAT_MODE_NULL};
use rcore_os::memory::page_table::UserBuffer;
use rcore_os::task::mail::{MailBox, MailBuffer};
use rcore_os::task::manager::TaskManager;
use rcore_os::task::processor::{port_permission, Processor};
use rcore_os::timer::{get_time_ms, get_time_val, set_next_trigger, TimeVal};
use rcore_os::trap::{trap_action, TrapAction, TrapCause};

#[test]
fn ring_buffer_is_first_in_first_out() {
    let mut ring = PipeRingBuffer::new();
    assert_eq!(ring.available_read(), 0);
    assert_eq!(ring.available_write(), RING_BUFFER_SIZE);
    for b in 0..40u8 {
        if ring.available_write() == 0 {
            break;
        }
        ring.write_byte(b);
    }
    assert_eq!(ring.available_read(), 32);
    assert_eq!(ring.available_write(), 0);
    assert_eq!(ring.read_byte(), 0);
    assert_eq!(ring.read_byte(), 1);
    ring.write_byte(100);
    ring.write_byte(101);
    let mut out = Vec::new();
    while ring.available_read() > 0 {
        out.push(ring.read_byte());
    }
    let mut expected: Vec<u8> = (2..32u8).collect();
    expected.push(100);
    expected.push(101);
    assert_eq!(out, expected);
    assert_eq!(ring.available_write(), 32);
}

#[test]
fn pipe_steps_move_bytes() {
    let r = Pipe::read_end();
    let w = Pipe::write_end();
    assert!(r.readable() && !r.writable());
    assert!(w.writable() && !w.readable());
    let mut ring = PipeRingBuffer::new();
    // A write of 40 bytes fills the ring, then has to wait.
    let data: Vec<u8> = (0..40u8).collect();
    assert_eq!(w.write_step(&mut ring, &data, 0), PipeStep::Again(32));
    assert_eq!(ring.available_read(), 32);
    assert_eq!(w.write_step(&mut ring, &data, 32), PipeStep::Suspend);
    // A read of 10 bytes takes the first 10.
    let mut buf = vec![0u8; 10];
    assert_eq!(r.read_step(&mut ring, &mut buf, 0, false), PipeStep::Done(10));
    assert_eq!(buf, (0..10u8).collect::<Vec<u8>>());
    // The writer finishes.
    assert_eq!(w.write_step(&mut ring, &data, 32), PipeStep::Done(40));
    // A large read takes all that is queued, then finds the ring empty.
    let mut big = vec![0u8; 100];
    assert_eq!(r.read_step(&mut ring, &mut big, 0, false), PipeStep::Again(30));
    assert_eq!(&big[..30], &(10..40u8).collect::<Vec<u8>>()[..]);
    assert_eq!(r.read_step(&mut ring, &mut big, 30, false), PipeStep::Suspend);
    assert_eq!(r.read_step(&mut ring, &mut big, 30, true), PipeStep::Done(30));
}

#[test]
fn mail_buffer_keeps_at_most_its_limit() {
    let mut m = MailBuffer::new();
    assert_eq!(m.len(), 0);
    assert_eq!(m.write_all(&UserBuffer::new(vec![7u8; 300])), 256);
    assert_eq!(m.len(), 256);
    let mut out = UserBuffer::new(vec![0u8; 10]);
    assert_eq!(m.read_all(&mut out), 10);
    assert_eq!(out.bytes, vec![7u8; 10]);
    assert_eq!(m.write_all(&UserBuffer::new(vec![1, 2, 3])), 3);
    let mut out2 = UserBuffer::new(vec![9u8; 5]);
    assert_eq!(m.read_all(&mut out2), 3);
    assert_eq!(out2.bytes, vec![1, 2, 3, 9, 9]);
}

#[test]
fn mailbox_holds_sixteen_mails_in_order() {
    let mut mb = MailBox::new();
    assert!(mb.is_empty());
    assert!(mb.get_mail().is_none());
    for i in 0..16u8 {
        assert_eq!(mb.post(&UserBuffer::new(vec![i, i])), Some(2));
    }
    assert!(mb.is_full());
    assert_eq!(mb.post(&UserBuffer::new(vec![1])), None);
    for i in 0..16u8 {
        let m = mb.get_mail().unwrap();
        let mut out = UserBuffer::new(vec![0u8; 2]);
        assert_eq!(m.read_all(&mut out), 2);
        assert_eq!(out.bytes, vec![i, i]);
    }
    assert!(mb.is_empty());
}

#[test]
fn ready_queue_is_first_in_first_out() {
    let mut q: TaskManager<&str> = TaskManager::new();
    assert!(q.fetch().is_none());
    q.add(3, "a");
    q.add(5, "b");
    q.add(3, "c");
    assert_eq!(q.len(), 3);
    assert_eq!(q.find(3), Some(&"a"));
    assert_eq!(q.find(5), Some(&"b"));
    assert_eq!(q.find(4), None);
    assert_eq!(q.fetch(), Some((3, "a")));
    assert_eq!(q.find(3), Some(&"c"));
    assert_eq!(q.fetch(), Some((5, "b")));
    assert_eq!(q.fetch(), Some((3, "c")));
    assert_eq!(q.len(), 0);
}

#[test]
fn processor_holds_the_current_task() {
    let mut p: Processor<u32> = Processor::new();
    assert!(p.current().is_none());
    p.set_current(8);
    assert_eq!(p.current(), Some(&8));
    assert_eq!(p.take_current(), Some(8));
    assert!(p.take_current().is_none());
}

#[test]
fn mmap_rights() {
    assert_eq!(port_permission(1).bits, 2 | 16);
    assert_eq!(port_permission(2).bits, 4 | 16);
    assert_eq!(port_permission(7).bits, 2 | 4 | 8 | 16);
}

#[test]
fn timer_values() {
    assert_eq!(get_time_ms(12_500_000), 1000);
    assert_eq!(get_time_ms(12_499), 0);
    assert_eq!(get_time_val(25_000_125), TimeVal { sec: 2, usec: 10 });
    assert_eq!(set_next_trigger(1000), 1000 + 125_000);
}

#[test]
fn traps_decide_the_next_action() {
    assert_eq!(trap_action(TrapCause::UserEnvCall, 0x1000, 1, 2, 3, 64),
        TrapAction::Syscall { id: 64, arg0: 1, arg1: 2, arg2: 3, sepc: 0x1004 });
    assert_eq!(trap_action(TrapCause::StorePageFault, 0x1000, 0, 0, 0, 0), TrapAction::Kill);
    assert_eq!(trap_action(TrapCause::LoadFault, 0x1000, 0, 0, 0, 0), TrapAction::Kill);
    assert_eq!(trap_action(TrapCause::IllegalInstruction, 0x1000, 0, 0, 0, 0), TrapAction::Kill);
    assert_eq!(trap_action(TrapCause::SupervisorTimer, 0x1000, 0, 0, 0, 0), TrapAction::Preempt);
}

#[test]
fn log_levels() {
    assert_eq!(LogLevel::Error.name(), "ERROR");
    assert_eq!(LogLevel::Info.front_color(), 34);
    assert_eq!(LogLevel::Info.back_color(), 44);
    assert_eq!(LogLevel::Trace.front_color(), 90);
    assert_eq!(LogLevel::Trace.back_color(), 100);
}

#[test]
fn standard_streams() {
    let i = Stdin;
    let o = Stdout;
    assert!(i.readable() && !i.writable());
    assert!(o.writable() && !o.readable());
    let mut buf = UserBuffer::new(vec![0]);
    assert_eq!(i.read_step(0, &mut buf), None);
    assert_eq!(buf.bytes, vec![0]);
    assert_eq!(i.read_step(0x141, &mut buf), Some(1));
    assert_eq!(buf.bytes, vec![0x41]);
    assert_eq!(o.write(&UserBuffer::new(vec![1, 2, 3])), 3);
}

#[test]
fn stat_is_cleared() {
    let mut st = Stat { dev: 3, ino: 9, mode: StatMode { bits: STAT_MODE_FILE }, nlink: 2, pad: [1; 7] };
    st.set_empty();
    assert_eq!(st.dev, 0);
    assert_eq!(st.ino, 0);
    assert_eq!(st.nlink, 0);
    assert_eq!(st.mode.bits, STAT_MODE_NULL);
    assert_eq!(st.pad, [0; 7]);
}

#[test]
fn batch_apps_are_loaded_in_turn() {
    let table = [2usize, 0x1000, 0x1004, 0x1010];
    let mut apps = AppManagerInner::from_table(&table);
    assert_eq!(apps.num_app, 2);
    assert_eq!(apps.get_current_app(), 0);
    assert_eq!(apps.app_range(0), (0x1000, 0x1004));
    assert_eq!(apps.app_range(1), (0x1004, 0x1010));
    let area = apps.load_app(0, &[1, 2, 3, 4]);
    assert_eq!(area.len(), 0x20000);
    assert_eq!(&area[..5], &[1, 2, 3, 4, 0]);
    assert!(area[4..].iter().all(|b| *b == 0));
    apps.move_to_next_app();
    assert_eq!(apps.get_current_app(), 1);
    assert_eq!(KernelStack { base: 0x1000 }.get_sp(), 0x3000);
    assert_eq!(KernelStack { base: 0x1000 }.push_context(0x100), 0x2f00);
    assert_eq!(UserStack { base: 0x8000 }.get_sp(), 0xa000);
}
