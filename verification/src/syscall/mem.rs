use vstd::prelude::*;
use crate::config::PAGE_SIZE;
use crate::memory::frame_allocator::{StackFrameAllocator, zero_page};
use crate::memory::memory_set::{MemorySet, MapPermission, MapType, AreaInfo};
use crate::task::processor::{mmap_current_task, munmap_current_task, mmap_overlaps, mmap_feasible, mmap_pages, port_perm_bits};
use crate::memory::memory_set::{ranges_meet, TRAMPOLINE_VPN};
use crate::memory::address::VirtAddr;

verus! {

/// Whether an mmap request's arguments are acceptable: some access is asked
/// for, bit 3 of `port` is clear, and `start` is page aligned.
pub open spec fn mmap_args_ok(start: usize, port: usize) -> bool {
    &&& port & 7 != 0
    &&& port & 8 == 0
    &&& start & 0xfff == 0
}

/// Whether an mmap of `[start, start + len)` with rights `port` can be
/// carried out in `ms` with `free` free frames, when its arguments are
/// accepted: the end does not overflow, and unless the pages meet an area
/// they can be mapped.
pub open spec fn mmap_can_run(ms: &MemorySet, free: int, start: usize, len: usize, port: usize) -> bool {
    mmap_args_ok(start, port) ==> {
        &&& start + len <= usize::MAX
        &&& !mmap_overlaps(ms, start, (start + len) as usize) ==> mmap_feasible(start, (start + len) as usize, free)
    }
}

/// Whether an mmap of `[start, start + len)` with rights `port` is carried
/// out in `ms`: its arguments are accepted and its pages meet no area.
pub open spec fn mmap_ok(ms: &MemorySet, start: usize, len: usize, port: usize) -> bool {
    mmap_args_ok(start, port) && !mmap_overlaps(ms, start, (start + len) as usize)
}

/// What mmap answers for `[start, start + len)` with rights `port` in `ms`:
/// the length mapped, rounded up to pages, as an `isize`, or -1 when it is
/// not carried out.
pub open spec fn mmap_answer(ms: &MemorySet, start: usize, len: usize, port: usize) -> isize {
    if mmap_ok(ms, start, len, port) {
        let (s, e) = mmap_pages(start, (start + len) as usize);
        ((e - s) * PAGE_SIZE) as isize
    } else {
        -1isize
    }
}

/// The area an mmap of `[start, start + len)` with rights `port` adds.
pub open spec fn mmap_area(start: usize, len: usize, port: usize) -> AreaInfo {
    let (s, e) = mmap_pages(start, (start + len) as usize);
    AreaInfo { start: s as u64, end: e as u64, map_type: MapType::Framed, perm: MapPermission { bits: port_perm_bits(port) } }
}

/// The areas of `ms` after an mmap of `[start, start + len)` with rights
/// `port`.
pub open spec fn mmap_infos(ms: &MemorySet, start: usize, len: usize, port: usize) -> Seq<AreaInfo> {
    if mmap_ok(ms, start, len, port) {
        ms.infos().push(mmap_area(start, len, port))
    } else {
        ms.infos()
    }
}

/// The first area from index `from` on that covers exactly the pages
/// `[s, e)`, or -1.
pub open spec fn first_area_with(infos: Seq<AreaInfo>, s: int, e: int, from: int) -> int
    decreases infos.len() - from,
{
    if from < 0 || from >= infos.len() {
        -1
    } else if infos[from].start == s && infos[from].end == e {
        from
    } else {
        first_area_with(infos, s, e, from + 1)
    }
}

/// Whether an munmap of `[start, start + len)` over the areas `infos` is
/// carried out: `start` is page aligned and an area covers exactly its pages.
pub open spec fn munmap_ok(infos: Seq<AreaInfo>, start: usize, len: usize) -> bool {
    let (s, e) = mmap_pages(start, (start + len) as usize);
    start & 0xfff == 0 && first_area_with(infos, s, e, 0) != -1
}

/// What munmap answers for `[start, start + len)` over the areas `infos`:
/// the length unmapped, as an `isize`, or -1 when it is not carried out.
pub open spec fn munmap_answer(infos: Seq<AreaInfo>, start: usize, len: usize) -> isize {
    if munmap_ok(infos, start, len) {
        let (s, e) = mmap_pages(start, (start + len) as usize);
        ((e - s) * PAGE_SIZE) as isize
    } else {
        -1isize
    }
}

/// The areas after an munmap of `[start, start + len)` over the areas
/// `infos`: the first area covering exactly those pages is gone.
pub open spec fn munmap_infos(infos: Seq<AreaInfo>, start: usize, len: usize) -> Seq<AreaInfo> {
    let (s, e) = mmap_pages(start, (start + len) as usize);
    if munmap_ok(infos, start, len) {
        infos.remove(first_area_with(infos, s, e, 0))
    } else {
        infos
    }
}

/// A length of at most `0x800_0000` pages, as an `isize`, is never -1.
proof fn lemma_page_length_not_minus_one(n: u64)
    requires
        n <= 0x800_0000,
    ensures
        ((n * 4096) as isize) != -1,
{
    assert(n <= 0x800_0000 ==> ((n * 4096) as isize) != -1) by (bit_vector);
}

proof fn lemma_first_area_with(infos: Seq<AreaInfo>, s: int, e: int, from: int)
    requires
        0 <= from,
    ensures
        ({
            let k = first_area_with(infos, s, e, from);
            &&& k == -1 <==> forall|j: int| from <= j < infos.len() ==> !(#[trigger] infos[j].start == s && infos[j].end == e)
            &&& k != -1 ==> from <= k < infos.len() && infos[k].start == s && infos[k].end == e
                && forall|j: int| from <= j < k ==> !(#[trigger] infos[j].start == s && infos[j].end == e)
        }),
    decreases infos.len() - from,
{
    if from < infos.len() {
        lemma_first_area_with(infos, s, e, from + 1);
    }
}

/// Unmapping exactly the pages that an mmap answering a positive length just
/// mapped answers that length and gives back the areas there were before it,
/// none of which meets those pages.
pub proof fn lemma_munmap_undoes_mmap(ms: &MemorySet, start: usize, len: usize, port: usize)
    requires
        mmap_answer(ms, start, len, port) > 0,
        start + len <= usize::MAX,
    ensures
        munmap_answer(mmap_infos(ms, start, len, port), start, len) == mmap_answer(ms, start, len, port),
        munmap_infos(mmap_infos(ms, start, len, port), start, len) == ms.infos(),
        ({
            let (s, e) = mmap_pages(start, (start + len) as usize);
            forall|k: int| 0 <= k < ms.infos().len() ==>
                !#[trigger] ranges_meet(s, e, ms.infos()[k].start as int, ms.infos()[k].end as int)
        }),
{
    let (s, e) = mmap_pages(start, (start + len) as usize);
    assert(mmap_ok(ms, start, len, port));
    assert(s <= e);
    assert(s != e);
    let infos = mmap_infos(ms, start, len, port);
    let n = ms.infos().len() as int;
    assert(infos == ms.infos().push(mmap_area(start, len, port)));
    lemma_first_area_with(infos, s, e, 0);
    assert forall|j: int| 0 <= j < n implies !(#[trigger] infos[j].start == s && infos[j].end == e) by {
        assert(infos[j] == ms.infos()[j]);
        if infos[j].start == s && infos[j].end == e {
            assert(ranges_meet(s, e, ms.infos()[j].start as int, ms.infos()[j].end as int));
        }
    }
    assert(infos[n].start == s && infos[n].end == e);
    assert(first_area_with(infos, s, e, 0) == n);
    assert(infos.remove(n) =~= ms.infos());
}

/// Whether an mmap of `[start, start + len)` with rights `port` can be
/// carried out in `memory_set`, with the frames `allocator` has free.
pub fn check_mmap(memory_set: &MemorySet, allocator: &StackFrameAllocator, start: usize, len: usize, port: usize) -> (r: bool)
    requires
        memory_set.wf(),
        allocator.wf(),
    ensures
        r == mmap_can_run(memory_set, allocator.free_count() as int, start, len, port),
{
    if port & 0x7 == 0 || port & 0x8 != 0 || start & 0xfff != 0 {
        return true;
    }
    if len > usize::MAX - start {
        return false;
    }
    let start_vpn = VirtAddr::from_u64(start as u64).floor();
    let end_vpn = VirtAddr::from_u64((start + len) as u64).ceil();
    if memory_set.contains_vpn(start_vpn, end_vpn) {
        return true;
    }
    start_vpn.0 <= end_vpn.0 && !(start_vpn.0 <= TRAMPOLINE_VPN && TRAMPOLINE_VPN < end_vpn.0)
        && allocator.has_free(end_vpn.0 - start_vpn.0)
}

/// Maps `len` bytes at `start` with the access `port` asks for (bit 0 read,
/// bit 1 write, bit 2 execute), answering the length mapped, rounded up to
/// pages; -1, with nothing changed, when the arguments are refused or the
/// pages meet an area.
pub fn sys_mmap(memory_set: &mut MemorySet, allocator: &mut StackFrameAllocator, start: usize, len: usize, port: usize)
    -> (r: isize)
    requires
        old(memory_set).wf(),
        old(allocator).wf(),
        old(memory_set).frames_in_use(old(allocator)),
        mmap_can_run(old(memory_set), old(allocator).free_count() as int, start, len, port),
    ensures
        final(memory_set).wf(),
        final(allocator).wf(),
        final(memory_set).frames_in_use(final(allocator)),
        r == mmap_answer(old(memory_set), start, len, port),
        final(memory_set).infos() == mmap_infos(old(memory_set), start, len, port),
        r == -1 <==> !mmap_ok(old(memory_set), start, len, port),
        !mmap_ok(old(memory_set), start, len, port) ==> final(memory_set).pt() == old(memory_set).pt()
            && forall|p: u64| final(allocator).in_use(p) <==> old(allocator).in_use(p),
        mmap_ok(old(memory_set), start, len, port) ==> {
            let (s, e) = mmap_pages(start, (start + len) as usize);
            &&& forall|i: int| #[trigger] final(memory_set).page_data(old(memory_set).infos().len() as int, i) matches Some(b)
                ==> b == zero_page()
            &&& final(allocator).free_count() == old(allocator).free_count() - (e - s)
        },
{
    if port & 0x7 == 0 {
        return -1;
    }
    if port & 0x8 != 0 {
        return -1;
    }
    if start & 0xfff != 0 {
        return -1;
    }
    match mmap_current_task(memory_set, start, start + len, port, allocator) {
        Some(length) => {
            proof {
                let (s, e) = mmap_pages(start, (start + len) as usize);
                assert(0 <= s <= e <= 0x800_0000);
                lemma_page_length_not_minus_one((e - s) as u64);
                assert((e - s) * PAGE_SIZE == ((e - s) as u64) * 4096);
            }
            length
        }
        None => -1,
    }
}

/// Unmaps the area covering exactly the pages of `[start, start + len)`,
/// answering its length in bytes; -1, with nothing changed, when `start` is
/// not page aligned or no area covers exactly those pages.
pub fn sys_munmap(memory_set: &mut MemorySet, allocator: &mut StackFrameAllocator, start: usize, len: usize) -> (r: isize)
    requires
        old(memory_set).wf(),
        old(allocator).wf(),
        old(memory_set).frames_in_use(old(allocator)),
        start & 0xfff == 0 ==> start + len <= usize::MAX,
    ensures
        final(memory_set).wf(),
        final(allocator).wf(),
        final(memory_set).frames_in_use(final(allocator)),
        r == munmap_answer(old(memory_set).infos(), start, len),
        final(memory_set).infos() == munmap_infos(old(memory_set).infos(), start, len),
        r == -1 <==> !munmap_ok(old(memory_set).infos(), start, len),
        !munmap_ok(old(memory_set).infos(), start, len) ==> final(memory_set).pt() == old(memory_set).pt()
            && forall|p: u64| final(allocator).in_use(p) <==> old(allocator).in_use(p),
        munmap_ok(old(memory_set).infos(), start, len) ==> {
            let (s, e) = mmap_pages(start, (start + len) as usize);
            let k = first_area_with(old(memory_set).infos(), s, e, 0);
            &&& final(memory_set).pt() == old(memory_set).pt().remove_keys(old(memory_set).area(k).pages())
            &&& forall|p: u64| final(allocator).in_use(p) <==> (old(allocator).in_use(p) && !old(memory_set).area(k).frames().contains(p))
        },
{
    if start & 0xfff != 0 {
        return -1;
    }
    let ghost (s, e) = mmap_pages(start, (start + len) as usize);
    proof {
        lemma_first_area_with(old(memory_set).infos(), s, e, 0);
    }
    match munmap_current_task(memory_set, start, start + len, allocator) {
        Some(length) => {
            proof {
                assert(0 <= s <= e <= 0x800_0000);
                lemma_page_length_not_minus_one((e - s) as u64);
                assert((e - s) * PAGE_SIZE == ((e - s) as u64) * 4096);
            }
            length
        }
        None => -1,
    }
}

} // verus!
