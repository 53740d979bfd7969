use vstd::prelude::*;
use crate::syscall::process::{le_bytes, u64_le_bytes, lemma_le_bytes_len_pub};

verus! {

/// The causes of a trap that the handler tells apart.
#[derive(Clone, Copy, Debug, PartialEq, Eq, Structural)]
pub enum TrapCause {
    UserEnvCall,
    StoreFault,
    StorePageFault,
    LoadFault,
    LoadPageFault,
    IllegalInstruction,
    SupervisorTimer,
    /// Any other exception or interrupt.
    Other,
}

/// What the trap handler does about a trap.
#[derive(Clone, Copy, Debug, PartialEq, Eq, Structural)]
pub enum TrapAction {
    /// Carry out system call `id` with arguments `arg0`, `arg1`, `arg2`;
    /// user space resumes at `sepc`.
    Syscall { id: usize, arg0: usize, arg1: usize, arg2: usize, sepc: usize },
    /// The task made a bad memory access or ran an illegal instruction: it
    /// is ended and the next task runs.
    Kill,
    /// The time slice is over: count it, arm the timer, and run the next task.
    Preempt,
}

/// What to do about a trap with cause `cause`, raised at `sepc` with the
/// argument registers `a0`, `a1`, `a2` and `a7` as user space left them.
/// The kernel handles no other cause: it stops on one.
pub fn trap_action(cause: TrapCause, sepc: usize, a0: usize, a1: usize, a2: usize, a7: usize) -> (r: TrapAction)
    requires
        cause != TrapCause::Other,
        cause == TrapCause::UserEnvCall ==> sepc + 4 <= usize::MAX,
    ensures
        cause == TrapCause::UserEnvCall ==> r == (TrapAction::Syscall { id: a7, arg0: a0, arg1: a1, arg2: a2, sepc: (sepc + 4) as usize }),
        (cause == TrapCause::StoreFault || cause == TrapCause::StorePageFault || cause == TrapCause::LoadFault
            || cause == TrapCause::LoadPageFault || cause == TrapCause::IllegalInstruction) ==> r == TrapAction::Kill,
        cause == TrapCause::SupervisorTimer ==> r == TrapAction::Preempt,
{
    match cause {
        TrapCause::UserEnvCall => TrapAction::Syscall { id: a7, arg0: a0, arg1: a1, arg2: a2, sepc: sepc + 4 },
        TrapCause::StoreFault | TrapCause::StorePageFault | TrapCause::LoadFault | TrapCause::LoadPageFault
            | TrapCause::IllegalInstruction => TrapAction::Kill,
        TrapCause::SupervisorTimer => TrapAction::Preempt,
        TrapCause::Other => {
            proof { assert(false); }
            TrapAction::Kill
        },
    }
}

} // verus!

verus! {

/// The bytes of the words `w`, each eight bytes, least significant first.
pub open spec fn words_bytes(w: Seq<u64>) -> Seq<u8>
    decreases w.len(),
{
    if w.len() == 0 {
        Seq::empty()
    } else {
        words_bytes(w.drop_last()) + le_bytes(w.last() as nat, 8)
    }
}

/// Eight bytes a word.
pub proof fn lemma_words_bytes_len(w: Seq<u64>)
    ensures
        words_bytes(w).len() == 8 * w.len(),
    decreases w.len(),
{
    if w.len() > 0 {
        lemma_words_bytes_len(w.drop_last());
        lemma_le_bytes_len_pub(w.last() as nat, 8);
    }
}

/// What a trap saves of a task: its 32 registers, `sstatus` and `sepc`, and
/// what the trap entry needs to get back into the kernel.
pub struct TrapContext {
    pub x: [u64; 32],
    pub sstatus: u64,
    pub sepc: u64,
    pub kernel_satp: u64,
    pub kernel_sp: u64,
    pub trap_handler: u64,
}

/// Number of bytes of a trap context in memory.
pub const TRAP_CONTEXT_BYTES: usize = 296;

/// The words of the trap context of a task about to enter user space at
/// `entry` with stack pointer `sp`.
pub open spec fn init_trap_words(entry: u64, sp: u64, kernel_satp: u64, kernel_sp: u64, trap_handler: u64, sstatus: u64)
    -> Seq<u64> {
    Seq::new(32, |i: int| if i == 2 { sp } else { 0u64 }) + seq![sstatus, entry, kernel_satp, kernel_sp, trap_handler]
}

impl TrapContext {
    /// The context's words in memory order.
    pub open spec fn words(&self) -> Seq<u64> {
        self.x@ + seq![self.sstatus, self.sepc, self.kernel_satp, self.kernel_sp, self.trap_handler]
    }

    /// The context of a task about to enter user space at `entry` with
    /// stack pointer `sp`: every register zero but `sp`, `sstatus` as given
    /// (the caller hands it with user mode as the previous mode), and the
    /// kernel's address space, stack top and trap handler.
    pub fn app_init_context(entry: u64, sp: u64, kernel_satp: u64, kernel_sp: u64, trap_handler: u64, sstatus: u64)
        -> (r: TrapContext)
        ensures
            r.x@ == Seq::new(32, |i: int| if i == 2 { sp } else { 0u64 }),
            r.sstatus == sstatus,
            r.sepc == entry,
            r.kernel_satp == kernel_satp,
            r.kernel_sp == kernel_sp,
            r.trap_handler == trap_handler,
            r.words() == init_trap_words(entry, sp, kernel_satp, kernel_sp, trap_handler, sstatus),
    {
        let mut x = [0u64; 32];
        x[2] = sp;
        let r = TrapContext { x, sstatus, sepc: entry, kernel_satp, kernel_sp, trap_handler };
        assert(r.x@ =~= Seq::new(32, |i: int| if i == 2 { sp } else { 0u64 }));
        assert(r.words() =~= init_trap_words(entry, sp, kernel_satp, kernel_sp, trap_handler, sstatus));
        r
    }

    /// `new` is `old` resumed at `sepc` with `ret` in `a0`, every other saved
    /// register kept.
    pub open spec fn resumed_with(old: TrapContext, new: TrapContext, sepc: u64, ret: u64) -> bool {
        &&& new.sepc == sepc
        &&& new.x@[10] == ret
        &&& forall|i: int| 0 <= i < 32 && i != 10 ==> #[trigger] new.x@[i] == old.x@[i]
        &&& new.sstatus == old.sstatus
        &&& new.kernel_satp == old.kernel_satp
        &&& new.kernel_sp == old.kernel_sp
        &&& new.trap_handler == old.trap_handler
    }

    /// A system call answers `ret`: it lands in `a0` (`x[10]`) and user space
    /// resumes at `sepc`; every other saved register stays as it was.
    pub fn resume_with(&mut self, sepc: u64, ret: u64)
        ensures
            final(self).sepc == sepc,
            final(self).x@[10] == ret,
            forall|i: int| 0 <= i < 32 && i != 10 ==> #[trigger] final(self).x@[i] == old(self).x@[i],
            final(self).sstatus == old(self).sstatus,
            final(self).kernel_satp == old(self).kernel_satp,
            final(self).kernel_sp == old(self).kernel_sp,
            final(self).trap_handler == old(self).trap_handler,
    {
        self.x[10] = ret;
        self.sepc = sepc;
    }

    /// The context as it lies in memory.
    pub fn to_bytes(&self) -> (r: Vec<u8>)
        ensures
            r@ == words_bytes(self.words()),
            r@.len() == TRAP_CONTEXT_BYTES,
    {
        let mut w: Vec<u64> = Vec::new();
        let mut i: usize = 0;
        while i < 32
            invariant
                i <= 32,
                w@ == self.x@.subrange(0, i as int),
            decreases 32 - i,
        {
            w.push(self.x[i]);
            proof {
                assert(w@ =~= self.x@.subrange(0, i + 1));
            }
            i = i + 1;
        }
        w.push(self.sstatus);
        w.push(self.sepc);
        w.push(self.kernel_satp);
        w.push(self.kernel_sp);
        w.push(self.trap_handler);
        proof {
            assert(w@ =~= self.words());
        }
        let mut out: Vec<u8> = Vec::new();
        let mut k: usize = 0;
        while k < w.len()
            invariant
                k <= w@.len(),
                out@ == words_bytes(w@.subrange(0, k as int)),
            decreases w@.len() - k,
        {
            let b = u64_le_bytes(w[k]);
            proof {
                lemma_le_bytes_len_pub(w@[k as int] as nat, 8);
            }
            let ghost o0 = out@;
            let mut t: usize = 0;
            while t < 8
                invariant
                    t <= 8,
                    b@.len() == 8,
                    out@ == o0 + b@.subrange(0, t as int),
                decreases 8 - t,
            {
                out.push(b[t]);
                proof {
                    assert(out@ =~= o0 + b@.subrange(0, t + 1));
                }
                t = t + 1;
            }
            proof {
                let s1 = w@.subrange(0, k + 1);
                assert(s1.drop_last() =~= w@.subrange(0, k as int));
                assert(b@.subrange(0, 8) =~= b@);
            }
            k = k + 1;
        }
        proof {
            assert(w@.subrange(0, w@.len() as int) =~= w@);
            lemma_words_bytes_len(w@);
        }
        out
    }
}

} // verus!
