use vstd::prelude::*;
use crate::memory::address::va_of;
use crate::memory::memory_set::MemorySet;
use crate::config::BIG_STRIDE;
use crate::task::task::TaskControlBlock;
use crate::timer::{get_time_val, TimeVal};

verus! {

/// The `n` low bytes of `x`, least significant first.
pub open spec fn le_bytes(x: nat, n: nat) -> Seq<u8>
    decreases n,
{
    if n == 0 {
        Seq::empty()
    } else {
        seq![(x % 256) as u8] + le_bytes(x / 256, (n - 1) as nat)
    }
}

/// The eight bytes of `x`, least significant first.
pub fn u64_le_bytes(x: u64) -> (r: Vec<u8>)
    ensures
        r@ == le_bytes(x as nat, 8),
{
    let mut out: Vec<u8> = Vec::new();
    let mut cur: u64 = x;
    let mut i: usize = 0;
    while i < 8
        invariant
            i <= 8,
            out@ + le_bytes(cur as nat, (8 - i) as nat) == le_bytes(x as nat, 8),
        decreases 8 - i,
    {
        let b = (cur % 256) as u8;
        proof {
            assert(le_bytes(cur as nat, (8 - i) as nat) == seq![b] + le_bytes((cur / 256) as nat, (8 - i - 1) as nat));
            assert(out@.push(b) + le_bytes((cur / 256) as nat, (8 - i - 1) as nat) =~= out@ + le_bytes(cur as nat, (8 - i) as nat));
        }
        out.push(b);
        cur = cur / 256;
        i = i + 1;
    }
    proof {
        assert(le_bytes(cur as nat, 0) =~= Seq::<u8>::empty());
        assert(out@ + Seq::<u8>::empty() =~= out@);
    }
    out
}

/// The bytes of a time value as user space lays it out: seconds, then
/// microseconds, each eight bytes, least significant first.
pub open spec fn time_val_bytes(t: TimeVal) -> Seq<u8> {
    le_bytes(t.sec as nat, 8) + le_bytes(t.usec as nat, 8)
}

/// Writes the time at cycle count `now` at user address `ts`, as sixteen
/// bytes, and answers 0.
pub fn sys_get_time(memory_set: &mut MemorySet, ts: usize, now: usize) -> (r: isize)
    requires
        old(memory_set).wf(),
        old(memory_set).user_bytes(va_of(ts as int), 16) is Some,
    ensures
        final(memory_set).wf(),
        final(memory_set).infos() == old(memory_set).infos(),
        final(memory_set).frames() == old(memory_set).frames(),
        final(memory_set).pt() == old(memory_set).pt(),
        r == 0,
        final(memory_set).user_bytes(va_of(ts as int), 16) == Some(time_val_bytes(get_time_val_spec(now))),
{
    let tv = get_time_val(now);
    let mut bytes = u64_le_bytes(tv.sec as u64);
    let usec_bytes = u64_le_bytes(tv.usec as u64);
    proof {
        lemma_le_bytes_len(tv.sec as nat, 8);
        lemma_le_bytes_len(tv.usec as nat, 8);
    }
    let mut i: usize = 0;
    let ghost b0 = bytes@;
    while i < 8
        invariant
            i <= 8,
            usec_bytes@.len() == 8,
            bytes@ == b0 + usec_bytes@.subrange(0, i as int),
        decreases 8 - i,
    {
        bytes.push(usec_bytes[i]);
        proof {
            assert(bytes@ =~= b0 + usec_bytes@.subrange(0, i + 1));
        }
        i = i + 1;
    }
    let va = crate::memory::address::VirtAddr::from_u64(ts as u64);
    proof {
        assert(usec_bytes@.subrange(0, 8) =~= usec_bytes@);
        assert(bytes@ == time_val_bytes(tv));
    }
    memory_set.write_user_bytes(va.0, bytes.as_slice());
    0
}

/// What `get_time_val` answers for cycle count `now`.
pub open spec fn get_time_val_spec(now: usize) -> TimeVal {
    TimeVal {
        sec: (now as int / (crate::config::CLOCK_FREQ as int)) as usize,
        usec: ((now as int % (crate::config::CLOCK_FREQ as int)) * crate::timer::USEC_PER_SEC / (crate::config::CLOCK_FREQ as int)) as usize,
    }
}

/// `le_bytes(x, n)` has `n` bytes.
pub proof fn lemma_le_bytes_len_pub(x: nat, n: nat)
    ensures
        le_bytes(x, n).len() == n,
{
    lemma_le_bytes_len(x, n);
}

proof fn lemma_le_bytes_len(x: nat, n: nat)
    ensures
        le_bytes(x, n).len() == n,
    decreases n,
{
    if n > 0 {
        lemma_le_bytes_len(x / 256, (n - 1) as nat);
    }
}

/// Sets the priority of `task` to `pri` and answers it, when `pri` is at
/// least 2; else -1 with nothing changed.
pub fn sys_set_priority(task: &mut TaskControlBlock, pri: isize) -> (r: isize)
    ensures
        r == (if pri >= 2 { pri } else { -1isize }),
        pri >= 2 ==> final(task).priority == pri && final(task).stride == (BIG_STRIDE as int) / (pri as int),
        pri >= 2 ==> final(task).stride <= BIG_STRIDE / 2,
        pri < 2 ==> final(task).priority == old(task).priority && final(task).stride == old(task).stride,
        final(task).memory_set == old(task).memory_set,
        final(task).fd_table == old(task).fd_table,
        final(task).pass == old(task).pass,
{
    if pri >= 2 && pri <= isize::MAX {
        task.set_priority(pri as usize);
        proof {
            let p = pri as int;
            let b = BIG_STRIDE as int;
            assert(b / p <= b / 2) by (nonlinear_arith) requires p >= 2, b >= 0;
        }
        pri
    } else {
        -1
    }
}

} // verus!
