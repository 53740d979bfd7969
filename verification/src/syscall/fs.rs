use vstd::prelude::*;
use crate::config::PAGE_SIZE;
use crate::memory::address::{VirtAddr, VirtPageNum, floor_vpn, ceil_vpn, va_of};
use crate::memory::memory_set::MemorySet;
use crate::memory::page_table::{UserBuffer, PTE_V, PTE_R, PTE_U};
use crate::task::mail::{MailBox, MAX_MAIL_NUM, MAX_MAIL_LENGTH};
use crate::task::task::TaskControlBlock;
use crate::task::manager::TaskManager;
use crate::syscall::process::{le_bytes, u64_le_bytes};

verus! {

/// The lowest descriptor from `from` on that is free in `table`, or the
/// table's length when none is.
pub open spec fn first_free_fd(table: Seq<Option<usize>>, from: int) -> int
    decreases table.len() - from,
{
    if from < 0 || from >= table.len() {
        table.len() as int
    } else if table[from] is None {
        from
    } else {
        first_free_fd(table, from + 1)
    }
}

/// `table` with file `file` opened at descriptor `fd`, the table growing by
/// one when `fd` is its length.
pub open spec fn install_fd(table: Seq<Option<usize>>, fd: int, file: usize) -> Seq<Option<usize>> {
    if fd < table.len() { table.update(fd, Some(file)) } else { table.push(Some(file)) }
}

proof fn lemma_first_free_fd(table: Seq<Option<usize>>, r: int, from: int)
    requires
        0 <= from <= r <= table.len(),
        forall|i: int| 0 <= i < r ==> #[trigger] table[i] is Some,
        r < table.len() ==> table[r] is None,
    ensures
        first_free_fd(table, from) == r,
    decreases r - from,
{
    if from < r {
        lemma_first_free_fd(table, r, from + 1);
    }
}

/// Whether page `v` is mapped valid, readable and user accessible in `ms`.
pub open spec fn page_user_readable(ms: &MemorySet, v: u64) -> bool {
    &&& ms.pt().contains_key(v)
    &&& ms.pt()[v].has_flag(PTE_V)
    &&& ms.pt()[v].has_flag(PTE_R)
    &&& ms.pt()[v].has_flag(PTE_U)
}

/// Whether user space may read `[buf, buf + len)`: the range does not wrap
/// and every page it touches is mapped valid, readable and user accessible.
pub open spec fn user_readable(ms: &MemorySet, buf: usize, len: usize) -> bool {
    &&& buf + len <= usize::MAX
    &&& forall|v: u64| floor_vpn(va_of(buf as int)) <= v < ceil_vpn(va_of(buf + len)) ==> #[trigger] page_user_readable(ms, v)
}

/// User space may read `[buf, buf + len)` exactly when the range does not
/// wrap and every page it touches has an entry with the valid, readable and
/// user bits set: one page without `PTE_R` (a write-only mapping, say)
/// makes the whole range unreadable.
pub proof fn lemma_user_readable_flags(ms: &MemorySet, buf: usize, len: usize)
    ensures
        user_readable(ms, buf, len) <==> (buf + len <= usize::MAX && forall|v: u64|
            floor_vpn(va_of(buf as int)) <= v < ceil_vpn(va_of(buf + len)) ==> {
                &&& #[trigger] ms.pt().contains_key(v)
                &&& ms.pt()[v].flags & PTE_V != 0
                &&& ms.pt()[v].flags & PTE_R != 0
                &&& ms.pt()[v].flags & PTE_U != 0
            }),
        forall|v: u64| floor_vpn(va_of(buf as int)) <= v < ceil_vpn(va_of(buf + len)) && #[trigger] ms.pt().contains_key(v)
            && ms.pt()[v].flags & PTE_R == 0 ==> !user_readable(ms, buf, len),
{
    let lo = floor_vpn(va_of(buf as int));
    let hi = ceil_vpn(va_of(buf + len));
    let rhs = buf + len <= usize::MAX && forall|v: u64| lo <= v < hi ==> {
        &&& #[trigger] ms.pt().contains_key(v)
        &&& ms.pt()[v].flags & PTE_V != 0
        &&& ms.pt()[v].flags & PTE_R != 0
        &&& ms.pt()[v].flags & PTE_U != 0
    };
    assert(user_readable(ms, buf, len) ==> rhs) by {
        if user_readable(ms, buf, len) {
            assert forall|v: u64| lo <= v < hi implies {
                &&& #[trigger] ms.pt().contains_key(v)
                &&& ms.pt()[v].flags & PTE_V != 0
                &&& ms.pt()[v].flags & PTE_R != 0
                &&& ms.pt()[v].flags & PTE_U != 0
            } by {
                assert(page_user_readable(ms, v));
            }
        }
    }
    assert(rhs ==> user_readable(ms, buf, len)) by {
        if rhs {
            assert forall|v: u64| lo <= v < hi implies #[trigger] page_user_readable(ms, v) by {
                assert(ms.pt().contains_key(v));
            }
        }
    }
    assert forall|v: u64| lo <= v < hi && #[trigger] ms.pt().contains_key(v)
        && ms.pt()[v].flags & PTE_R == 0 implies !user_readable(ms, buf, len) by {
        if user_readable(ms, buf, len) {
            assert(page_user_readable(ms, v));
        }
    }
}

/// The open file of descriptor `fd`, if any.
pub open spec fn fd_file(task: &TaskControlBlock, fd: usize) -> Option<usize> {
    if fd < task.fd_table@.len() { task.fd_table@[fd as int] } else { None }
}

/// Whether user space may read `[buf, buf + len)`.
pub fn security_check(ms: &MemorySet, buf: usize, len: usize) -> (r: bool)
    requires
        ms.wf(),
    ensures
        r == user_readable(ms, buf, len),
{
    if len > usize::MAX - buf {
        return false;
    }
    let start_vpn = VirtAddr::from_u64(buf as u64).floor();
    let end_vpn = VirtAddr::from_u64((buf + len) as u64).ceil();
    let mut vpn = start_vpn.0;
    while vpn < end_vpn.0
        invariant
            ms.wf(),
            buf + len <= usize::MAX,
            start_vpn.0 <= vpn,
            start_vpn.0 == floor_vpn(va_of(buf as int)),
            end_vpn.0 == ceil_vpn(va_of(buf + len)),
            forall|v: u64| start_vpn.0 <= v < vpn && v < end_vpn.0 ==> #[trigger] page_user_readable(ms, v),
        decreases end_vpn.0 - vpn,
    {
        let ok = match ms.translate(VirtPageNum(vpn)) {
            Some(pte) => pte.is_valid() && pte.readable() && pte.u_able(),
            None => false,
        };
        if !ok {
            proof {
                assert(!page_user_readable(ms, vpn));
            }
            return false;
        }
        proof {
            assert(page_user_readable(ms, vpn));
        }
        let ghost prev = vpn;
        vpn = vpn + 1;
        proof {
            assert forall|v: u64| start_vpn.0 <= v < vpn && v < end_vpn.0 implies #[trigger] page_user_readable(ms, v) by {
                if v < prev {
                } else {
                    assert(v == prev);
                }
            }
        }
    }
    proof {
        assert forall|v: u64| floor_vpn(va_of(buf as int)) <= v < ceil_vpn(va_of(buf + len))
            implies #[trigger] page_user_readable(ms, v) by {
            assert(start_vpn.0 <= v < vpn && v < end_vpn.0);
        }
    }
    true
}

/// The file and the bytes of a write of `len` bytes at `buf` to descriptor
/// `fd`; -1 when user space may not read the bytes, `fd` is not open, or
/// the bytes do not lie in framed areas.
pub fn sys_write(task: &TaskControlBlock, fd: usize, buf: usize, len: usize) -> (r: Result<(usize, UserBuffer), isize>)
    requires
        task.memory_set.wf(),
    ensures
        r is Ok <==> (user_readable(&task.memory_set, buf, len) && fd_file(task, fd) is Some
            && task.memory_set.user_bytes(va_of(buf as int), len as int) is Some),
        r matches Ok((f, b)) ==> f == fd_file(task, fd)->0
            && b.bytes@ == task.memory_set.user_bytes(va_of(buf as int), len as int)->0,
        r matches Err(e) ==> e == -1,
{
    if !security_check(&task.memory_set, buf, len) {
        return Err(-1);
    }
    if fd >= task.fd_table.len() {
        return Err(-1);
    }
    let file = match task.fd_table[fd] {
        Some(f) => f,
        None => {
            return Err(-1);
        }
    };
    let start = VirtAddr::from_u64(buf as u64);
    match task.memory_set.read_user_bytes(start.0, len) {
        Some(bytes) => Ok((file, UserBuffer::new(bytes))),
        None => Err(-1),
    }
}

/// The file and the current bytes of the user buffer of a read of `len`
/// bytes into `buf` from descriptor `fd`; -1 when `fd` is not open or the
/// buffer does not lie in framed areas.
pub fn sys_read(task: &TaskControlBlock, fd: usize, buf: usize, len: usize) -> (r: Result<(usize, UserBuffer), isize>)
    requires
        task.memory_set.wf(),
    ensures
        r is Ok <==> (fd_file(task, fd) is Some && buf + len <= u64::MAX
            && task.memory_set.user_bytes(va_of(buf as int), len as int) is Some),
        r matches Ok((f, b)) ==> f == fd_file(task, fd)->0
            && b.bytes@ == task.memory_set.user_bytes(va_of(buf as int), len as int)->0,
        r matches Err(e) ==> e == -1,
{
    if fd >= task.fd_table.len() {
        return Err(-1);
    }
    let file = match task.fd_table[fd] {
        Some(f) => f,
        None => {
            return Err(-1);
        }
    };
    let start = VirtAddr::from_u64(buf as u64);
    if start.0 > u64::MAX - len as u64 {
        proof {
            assert(va_of(buf as int) <= buf);
        }
        return Err(-1);
    }
    proof {
        assert(va_of(buf as int) <= buf);
    }
    if (buf as u64) > u64::MAX - len as u64 {
        return Err(-1);
    }
    match task.memory_set.read_user_bytes(start.0, len) {
        Some(bytes) => Ok((file, UserBuffer::new(bytes))),
        None => Err(-1),
    }
}

/// Stores the bytes of `data` back at `buf` once a read has filled them in;
/// answers whether they could be stored.
pub fn store_user_buffer(ms: &mut MemorySet, buf: usize, data: &UserBuffer) -> (r: bool)
    requires
        old(ms).wf(),
        buf + data.bytes@.len() <= u64::MAX,
    ensures
        final(ms).wf(),
        final(ms).infos() == old(ms).infos(),
        final(ms).frames() == old(ms).frames(),
        final(ms).pt() == old(ms).pt(),
        r == (old(ms).user_bytes(va_of(buf as int), data.bytes@.len() as int) is Some),
        r ==> final(ms).user_bytes(va_of(buf as int), data.bytes@.len() as int) == Some(data.bytes@),
{
    let start = VirtAddr::from_u64(buf as u64);
    let ok = ms.write_user_bytes(start.0, data.bytes.as_slice());
    proof {
        if ok {
            let n = data.bytes@.len() as int;
            assert forall|j: int| 0 <= j < n implies #[trigger] ms.user_byte(start.0 + j) is Some by {}
            assert(ms.user_bytes(start.0 as int, n)->0 =~= data.bytes@);
        }
    }
    ok
}

/// Installs `file` at the lowest free descriptor and answers it; -1 when no
/// file was opened (or the table cannot grow).
pub fn sys_open(task: &mut TaskControlBlock, file: Option<usize>) -> (r: isize)
    ensures
        (file is None || old(task).fd_table@.len() >= isize::MAX) ==> r == -1 && final(task).fd_table@ == old(task).fd_table@,
        file is Some && old(task).fd_table@.len() < isize::MAX ==> {
            &&& r >= 0
            &&& r <= old(task).fd_table@.len()
            &&& forall|i: int| 0 <= i < r ==> #[trigger] old(task).fd_table@[i] is Some
            &&& (r < old(task).fd_table@.len() ==> old(task).fd_table@[r as int] is None
                && final(task).fd_table@ == old(task).fd_table@.update(r as int, file))
            &&& (r == old(task).fd_table@.len() ==> final(task).fd_table@ == old(task).fd_table@.push(file))
        },
        final(task).memory_set == old(task).memory_set,
        final(task).mail_box == old(task).mail_box,
{
    match file {
        Some(f) => {
            if task.fd_table.len() >= isize::MAX as usize {
                return -1;
            }
            let fd = task.alloc_fd();
            task.fd_table.set(fd, Some(f));
            proof {
                if fd == old(task).fd_table@.len() {
                    assert(task.fd_table@ =~= old(task).fd_table@.push(file));
                }
            }
            fd as isize
        }
        None => -1,
    }
}

/// Closes descriptor `fd`: 0, or -1 when it is not open.
pub fn sys_close(task: &mut TaskControlBlock, fd: usize) -> (r: isize)
    ensures
        r == (if fd_file(old(task), fd) is Some { 0isize } else { -1isize }),
        r == 0 ==> final(task).fd_table@ == old(task).fd_table@.update(fd as int, None),
        r == -1 ==> final(task).fd_table@ == old(task).fd_table@,
        final(task).memory_set == old(task).memory_set,
        final(task).mail_box == old(task).mail_box,
{
    if fd >= task.fd_table.len() {
        return -1;
    }
    if task.fd_table[fd].is_none() {
        return -1;
    }
    task.fd_table.set(fd, None);
    0
}

/// Opens a second descriptor on the file of `fd`, the lowest free one, and
/// answers it; -1 when `fd` is not open (or the table cannot grow).
pub fn sys_dup(task: &mut TaskControlBlock, fd: usize) -> (r: isize)
    ensures
        (fd_file(old(task), fd) is None || old(task).fd_table@.len() >= isize::MAX) ==> r == -1
            && final(task).fd_table@ == old(task).fd_table@,
        fd_file(old(task), fd) is Some && old(task).fd_table@.len() < isize::MAX ==> {
            &&& r >= 0
            &&& r <= old(task).fd_table@.len()
            &&& forall|i: int| 0 <= i < r ==> #[trigger] old(task).fd_table@[i] is Some
            &&& (r < old(task).fd_table@.len() ==> old(task).fd_table@[r as int] is None
                && final(task).fd_table@ == old(task).fd_table@.update(r as int, fd_file(old(task), fd)))
            &&& (r == old(task).fd_table@.len() ==> final(task).fd_table@ == old(task).fd_table@.push(fd_file(old(task), fd)))
        },
        final(task).memory_set == old(task).memory_set,
        final(task).mail_box == old(task).mail_box,
{
    if fd >= task.fd_table.len() {
        return -1;
    }
    let file = task.fd_table[fd];
    if file.is_none() {
        return -1;
    }
    sys_open(task, file)
}

/// Opens `read_file` and `write_file`, the two ends of a new pipe, at the
/// two lowest free descriptors and stores these at `pipe` and `pipe + 8` in
/// user space, eight bytes each; -1, with nothing changed, when those
/// sixteen bytes cannot be written.
pub fn sys_pipe(task: &mut TaskControlBlock, pipe: usize, read_file: usize, write_file: usize) -> (r: isize)
    requires
        old(task).memory_set.wf(),
    ensures
        final(task).memory_set.wf(),
        final(task).memory_set.infos() == old(task).memory_set.infos(),
        final(task).memory_set.frames() == old(task).memory_set.frames(),
        final(task).memory_set.pt() == old(task).memory_set.pt(),
        r == 0 || r == -1,
        r == 0 <==> (old(task).memory_set.user_bytes(va_of(pipe as int), 16) is Some
            && old(task).fd_table@.len() + 2 < isize::MAX),
        r == -1 ==> final(task).fd_table@ == old(task).fd_table@ && final(task).memory_set == old(task).memory_set,
        r == 0 ==> {
            let t0 = old(task).fd_table@;
            let rfd = first_free_fd(t0, 0);
            let t1 = install_fd(t0, rfd, read_file);
            let wfd = first_free_fd(t1, 0);
            &&& final(task).fd_table@ == install_fd(t1, wfd, write_file)
            &&& final(task).memory_set.user_bytes(va_of(pipe as int), 16) == Some(le_bytes(rfd as nat, 8) + le_bytes(wfd as nat, 8))
        },
{
    let va = VirtAddr::from_u64(pipe as u64);
    if va.0 > u64::MAX - 16 || task.fd_table.len() >= (isize::MAX as usize) - 2 {
        return -1;
    }
    match task.memory_set.read_user_bytes(va.0, 16) {
        None => {
            return -1;
        }
        Some(_) => {}
    }
    let ghost t0 = task.fd_table@;
    let read_fd = task.alloc_fd();
    task.fd_table.set(read_fd, Some(read_file));
    let ghost t1 = task.fd_table@;
    proof {
        lemma_first_free_fd(t0, read_fd as int, 0);
        assert(t1 =~= install_fd(t0, read_fd as int, read_file));
    }
    let write_fd = task.alloc_fd();
    task.fd_table.set(write_fd, Some(write_file));
    proof {
        lemma_first_free_fd(t1, write_fd as int, 0);
        assert(task.fd_table@ =~= install_fd(t1, write_fd as int, write_file));
    }
    let mut bytes = u64_le_bytes(read_fd as u64);
    let wbytes = u64_le_bytes(write_fd as u64);
    proof {
        crate::syscall::process::lemma_le_bytes_len_pub(read_fd as nat, 8);
        crate::syscall::process::lemma_le_bytes_len_pub(write_fd as nat, 8);
    }
    let ghost b0 = bytes@;
    let mut i: usize = 0;
    while i < 8
        invariant
            i <= 8,
            wbytes@.len() == 8,
            bytes@ == b0 + wbytes@.subrange(0, i as int),
        decreases 8 - i,
    {
        bytes.push(wbytes[i]);
        proof {
            assert(bytes@ =~= b0 + wbytes@.subrange(0, i + 1));
        }
        i = i + 1;
    }
    proof {
        assert(wbytes@.subrange(0, 8) =~= wbytes@);
    }
    let ok = task.memory_set.write_user_bytes(va.0, bytes.as_slice());
    proof {
        let n = 16int;
        assert forall|j: int| 0 <= j < n implies #[trigger] task.memory_set.user_byte(va.0 + j) is Some by {}
        assert(task.memory_set.user_bytes(va.0 as int, 16)->0 =~= bytes@);
        assert(fd_file(task, read_fd) == Some(read_file));
        assert(fd_file(task, write_fd) == Some(write_file));
    }
    0
}

/// Reads the oldest mail of `task` into `len` bytes at `buf`, answering the
/// number of bytes copied (as much of the mail as fits). With `len` 0,
/// answers 0 when a mail is waiting and -1 when none is, taking nothing. -1,
/// with nothing changed, when the mailbox is empty or the buffer does not
/// lie in framed areas.
pub fn sys_mail_read(task: &mut TaskControlBlock, buf: usize, len: usize) -> (r: isize)
    requires
        old(task).memory_set.wf(),
        old(task).mail_box.wf(),
    ensures
        final(task).memory_set.wf(),
        final(task).mail_box.wf(),
        final(task).memory_set.infos() == old(task).memory_set.infos(),
        final(task).memory_set.frames() == old(task).memory_set.frames(),
        final(task).memory_set.pt() == old(task).memory_set.pt(),
        final(task).fd_table == old(task).fd_table,
        len == 0 ==> r == (if old(task).mail_box@.len() == 0 { -1isize } else { 0isize })
            && final(task).mail_box@ == old(task).mail_box@ && final(task).memory_set == old(task).memory_set,
        len > 0 ==> {
            let ok = old(task).mail_box@.len() > 0 && buf + len <= u64::MAX
                && old(task).memory_set.user_bytes(va_of(buf as int), len as int) is Some;
            &&& !ok ==> r == -1 && final(task).mail_box@ == old(task).mail_box@ && final(task).memory_set == old(task).memory_set
            &&& ok ==> {
                let mail = old(task).mail_box@[0];
                let n = if mail.len() < len { mail.len() as int } else { len as int };
                &&& r == n
                &&& final(task).mail_box@ == old(task).mail_box@.drop_first()
                &&& final(task).memory_set.user_bytes(va_of(buf as int), len as int) == Some(mail.subrange(0, n)
                    + old(task).memory_set.user_bytes(va_of(buf as int), len as int)->0.subrange(n, len as int))
            }
        },
{
    if len == 0 {
        return if task.mail_box.is_empty() { -1 } else { 0 };
    }
    if task.mail_box.is_empty() {
        return -1;
    }
    let start = VirtAddr::from_u64(buf as u64);
    proof {
        assert(va_of(buf as int) <= buf);
    }
    if (buf as u64) > u64::MAX - len as u64 {
        return -1;
    }
    let bytes = match task.memory_set.read_user_bytes(start.0, len) {
        Some(b) => b,
        None => {
            return -1;
        }
    };
    let mail = match task.mail_box.get_mail() {
        Some(m) => m,
        None => {
            return -1;
        }
    };
    let mut ub = UserBuffer::new(bytes);
    let n = mail.read_all(&mut ub);
    let ok = store_user_buffer(&mut task.memory_set, buf, &ub);
    proof {
        assert(ok);
    }
    n as isize
}

/// What a mail write of the `len` bytes at `buf` of `sender`, readable by
/// user space, answers for a mailbox holding `mails`.
pub open spec fn mail_write_answer(sender: &MemorySet, mails: Seq<Seq<u8>>, buf: usize, len: usize) -> isize {
    if len == 0 {
        if mails.len() >= MAX_MAIL_NUM { -1isize } else { 0isize }
    } else if mails.len() < MAX_MAIL_NUM && sender.user_bytes(va_of(buf as int), len as int) is Some {
        (if len < MAX_MAIL_LENGTH { len as int } else { MAX_MAIL_LENGTH as int }) as isize
    } else {
        -1isize
    }
}

/// The mails of a mailbox holding `mails` after such a write.
pub open spec fn mail_write_box(sender: &MemorySet, mails: Seq<Seq<u8>>, buf: usize, len: usize) -> Seq<Seq<u8>> {
    if len > 0 && mails.len() < MAX_MAIL_NUM && sender.user_bytes(va_of(buf as int), len as int) is Some {
        let n = if len < MAX_MAIL_LENGTH { len as int } else { MAX_MAIL_LENGTH as int };
        mails.push(sender.user_bytes(va_of(buf as int), len as int)->0.subrange(0, n))
    } else {
        mails
    }
}

/// Posts the `len` bytes at `buf` of the sender's space `sender` as a mail
/// to `mail_box` (as much as a mail holds), answering the mail's length.
/// With `len` 0, answers 0 when the mailbox has room and -1 when it is
/// full, posting nothing. -1, with nothing changed, when user space may not
/// read the bytes or the mailbox is full.
pub fn sys_mail_write(sender: &MemorySet, mail_box: &mut MailBox, buf: usize, len: usize) -> (r: isize)
    requires
        sender.wf(),
        old(mail_box).wf(),
    ensures
        final(mail_box).wf(),
        !user_readable(sender, buf, len) ==> r == -1 && final(mail_box)@ == old(mail_box)@,
        user_readable(sender, buf, len) && len == 0 ==>
            r == (if old(mail_box)@.len() >= MAX_MAIL_NUM { -1isize } else { 0isize }) && final(mail_box)@ == old(mail_box)@,
        user_readable(sender, buf, len) && len > 0 ==> {
            let ok = old(mail_box)@.len() < MAX_MAIL_NUM && sender.user_bytes(va_of(buf as int), len as int) is Some;
            let n = if len < MAX_MAIL_LENGTH { len as int } else { MAX_MAIL_LENGTH as int };
            &&& !ok ==> r == -1 && final(mail_box)@ == old(mail_box)@
            &&& ok ==> r == n && final(mail_box)@ == old(mail_box)@.push(
                sender.user_bytes(va_of(buf as int), len as int)->0.subrange(0, n))
        },
{
    if !security_check(sender, buf, len) {
        return -1;
    }
    if len == 0 {
        return if mail_box.is_full() { -1 } else { 0 };
    }
    if mail_box.is_full() {
        return -1;
    }
    let start = VirtAddr::from_u64(buf as u64);
    proof {
        assert(va_of(buf as int) <= buf);
    }
    let bytes = match sender.read_user_bytes(start.0, len) {
        Some(b) => b,
        None => {
            return -1;
        }
    };
    let ub = UserBuffer::new(bytes);
    match mail_box.post(&ub) {
        Some(n) => n as isize,
        None => -1,
    }
}

/// Posts the `len` bytes at `buf` of `current`'s space as a mail to the task
/// `pid`: `current` itself, or the first queued task with that pid. -1,
/// with nothing changed, when user space may not read the bytes or no task
/// has that pid; else as `sys_mail_write` answers for that task's mailbox.
pub fn sys_mail_write_to(current: &mut TaskControlBlock, manager: &mut TaskManager<TaskControlBlock>, pid: usize,
    buf: usize, len: usize) -> (r: isize)
    requires
        old(current).memory_set.wf(),
        old(current).mail_box.wf(),
        forall|k: int| 0 <= k < old(manager)@.len() ==> (#[trigger] old(manager)@[k]).1.mail_box.wf(),
    ensures
        final(current).memory_set == old(current).memory_set,
        final(current).fd_table == old(current).fd_table,
        final(current).mail_box.wf(),
        forall|k: int| 0 <= k < final(manager)@.len() ==> (#[trigger] final(manager)@[k]).1.mail_box.wf(),
        !user_readable(&old(current).memory_set, buf, len) ==> r == -1
            && final(current).mail_box@ == old(current).mail_box@ && final(manager)@ == old(manager)@,
        user_readable(&old(current).memory_set, buf, len) && pid == old(current).pid ==>
            r == mail_write_answer(&old(current).memory_set, old(current).mail_box@, buf, len)
            && final(current).mail_box@ == mail_write_box(&old(current).memory_set, old(current).mail_box@, buf, len)
            && final(manager)@ == old(manager)@,
        user_readable(&old(current).memory_set, buf, len) && pid != old(current).pid ==> {
            let q = old(manager)@;
            &&& final(current).mail_box@ == old(current).mail_box@
            &&& (forall|k: int| 0 <= k < q.len() ==> #[trigger] q[k].0 != pid) ==> r == -1 && final(manager)@ == q
            &&& forall|i: int| 0 <= i < q.len() && #[trigger] q[i].0 == pid
                && (forall|j: int| 0 <= j < i ==> #[trigger] q[j].0 != pid) ==> {
                &&& r == mail_write_answer(&old(current).memory_set, q[i].1.mail_box@, buf, len)
                &&& final(manager)@.len() == q.len()
                &&& forall|j: int| 0 <= j < q.len() && j != i ==> #[trigger] final(manager)@[j] == q[j]
                &&& final(manager)@[i].0 == pid
                &&& final(manager)@[i].1.pid == q[i].1.pid
                &&& final(manager)@[i].1.memory_set == q[i].1.memory_set
                &&& final(manager)@[i].1.fd_table == q[i].1.fd_table
                &&& final(manager)@[i].1.mail_box@ == mail_write_box(&old(current).memory_set, q[i].1.mail_box@, buf, len)
            }
        },
{
    if !security_check(&current.memory_set, buf, len) {
        return -1;
    }
    if pid == current.pid {
        return sys_mail_write(&current.memory_set, &mut current.mail_box, buf, len);
    }
    match manager.position(pid) {
        None => -1,
        Some(i) => {
            let ghost q = manager@;
            let (p, mut t) = manager.take_at(i);
            assert(t.mail_box.wf());
            let r = sys_mail_write(&current.memory_set, &mut t.mail_box, buf, len);
            let ghost t1 = t;
            manager.put_at(i, (p, t));
            proof {
                assert forall|j: int| 0 <= j < q.len() && j != i implies #[trigger] manager@[j] == q[j] by {
                    if j < i {
                        assert(manager@[j] == q.remove(i as int)[j]);
                    } else {
                        assert(manager@[j] == q.remove(i as int)[j - 1]);
                    }
                }
                assert forall|k: int| 0 <= k < manager@.len() implies (#[trigger] manager@[k]).1.mail_box.wf() by {
                    if k != i {
                        assert(manager@[k] == q[k]);
                    }
                }
            }
            r
        }
    }
}

/// The two paths of a link request, read from user space; -1 when either
/// cannot be read or they are the same path.
pub fn sys_linkat(ms: &MemorySet, old_path: usize, new_path: usize) -> (r: Result<(Vec<u8>, Vec<u8>), isize>)
    requires
        ms.wf(),
    ensures
        r is Ok <==> (ms.user_str(old_path as int) is Some && ms.user_str(new_path as int) is Some
            && ms.user_str(old_path as int) != ms.user_str(new_path as int)),
        r matches Ok((a, b)) ==> ms.user_str(old_path as int) == Some(a@) && ms.user_str(new_path as int) == Some(b@),
        r matches Err(e) ==> e == -1,
{
    let old_s = match ms.translated_str(old_path as u64) {
        Some(s) => s,
        None => {
            return Err(-1);
        }
    };
    let new_s = match ms.translated_str(new_path as u64) {
        Some(s) => s,
        None => {
            return Err(-1);
        }
    };
    if bytes_eq(&old_s, &new_s) {
        return Err(-1);
    }
    Ok((old_s, new_s))
}

/// The path of an unlink request, read from user space; -1 when it cannot
/// be read.
pub fn sys_unlinkat(ms: &MemorySet, path: usize) -> (r: Result<Vec<u8>, isize>)
    requires
        ms.wf(),
    ensures
        r is Ok <==> ms.user_str(path as int) is Some,
        r matches Ok(a) ==> ms.user_str(path as int) == Some(a@),
        r matches Err(e) ==> e == -1,
{
    match ms.translated_str(path as u64) {
        Some(s) => Ok(s),
        None => Err(-1),
    }
}

/// The open file of descriptor `fd`, whose status is to be reported; -1
/// when `fd` is not open.
pub fn sys_fstat(task: &TaskControlBlock, fd: usize) -> (r: Result<usize, isize>)
    ensures
        r == (match fd_file(task, fd) { Some(f) => Ok(f), None => Err(-1isize) }),
{
    if fd >= task.fd_table.len() {
        return Err(-1);
    }
    match task.fd_table[fd] {
        Some(f) => Ok(f),
        None => Err(-1),
    }
}

/// Whether two byte strings are equal.
pub fn bytes_eq(a: &Vec<u8>, b: &Vec<u8>) -> (r: bool)
    ensures
        r == (a@ == b@),
{
    if a.len() != b.len() {
        return false;
    }
    let mut i: usize = 0;
    while i < a.len()
        invariant
            a@.len() == b@.len(),
            i <= a@.len(),
            forall|j: int| 0 <= j < i ==> a@[j] == b@[j],
        decreases a@.len() - i,
    {
        if a[i] != b[i] {
            return false;
        }
        i = i + 1;
    }
    assert(a@ =~= b@);
    true
}

} // verus!
