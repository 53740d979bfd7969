use vstd::prelude::*;
use crate::config::PAGE_SIZE;
use crate::memory::address::PhysPageNum;

verus! {

/// The contents of a freshly allocated frame.
pub open spec fn zero_page() -> Seq<u8> {
    Seq::new(PAGE_SIZE as nat, |i: int| 0u8)
}

/// A physical frame owned by its holder, with the bytes it holds.
pub struct FrameTracker {
    pub ppn: PhysPageNum,
    pub data: Vec<u8>,
}

impl FrameTracker {
    /// A frame of `PAGE_SIZE` bytes, all zero.
    pub fn new(ppn: PhysPageNum) -> (r: FrameTracker)
        ensures
            r.ppn == ppn,
            r.data@ == Seq::new(PAGE_SIZE as nat, |i: int| 0u8),
    {
        let mut data: Vec<u8> = Vec::new();
        let mut i: usize = 0;
        while i < PAGE_SIZE
            invariant
                i <= PAGE_SIZE,
                data@ == Seq::new(i as nat, |k: int| 0u8),
            decreases PAGE_SIZE - i,
        {
            data.push(0u8);
            i = i + 1;
        }
        FrameTracker { ppn, data }
    }

    pub open spec fn wf(&self) -> bool {
        self.data@.len() == PAGE_SIZE
    }
}

/// Hands out physical frames: first the most recently returned one, else the
/// next never-used frame below `end`.
pub struct StackFrameAllocator {
    current: u64,
    end: u64,
    recycled: Vec<u64>,
}

impl StackFrameAllocator {
    /// Frames are handed out below `current`; `recycled` holds distinct frames
    /// that were handed out and returned.
    pub closed spec fn wf(&self) -> bool {
        &&& self.current <= self.end
        &&& forall|i: int| 0 <= i < self.recycled@.len() ==> #[trigger] self.recycled@[i] < self.current
        &&& forall|i: int, j: int|
            0 <= i < j < self.recycled@.len() ==> self.recycled@[i] != self.recycled@[j]
    }

    /// Whether frame `p` can be handed out.
    pub closed spec fn is_free(&self, p: u64) -> bool {
        (self.current <= p < self.end) || self.recycled@.contains(p)
    }

    /// Whether frame `p` was handed out and not returned.
    pub closed spec fn in_use(&self, p: u64) -> bool {
        p < self.current && !self.recycled@.contains(p)
    }

    /// Number of frames that can still be handed out.
    pub closed spec fn free_count(&self) -> nat {
        ((self.end - self.current) + self.recycled@.len()) as nat
    }

    /// The frame the next allocation hands out, if any.
    pub closed spec fn next_frame(&self) -> Option<u64> {
        if self.recycled@.len() > 0 {
            Some(self.recycled@.last())
        } else if self.current < self.end {
            Some(self.current)
        } else {
            None
        }
    }

    /// A frame is never both free and in use.
    pub proof fn lemma_free_not_in_use(&self, p: u64)
        ensures
            !(self.is_free(p) && self.in_use(p)),
    {
    }

    /// An allocator with no frames.
    pub fn new() -> (r: StackFrameAllocator)
        ensures
            r.wf(),
            r.free_count() == 0,
            forall|p: u64| !r.is_free(p) && !r.in_use(p),
    {
        StackFrameAllocator { current: 0, end: 0, recycled: Vec::new() }
    }

    /// Hands out the frames `[l, r)`.
    pub fn init(&mut self, l: PhysPageNum, r: PhysPageNum)
        requires
            l.0 <= r.0,
        ensures
            final(self).wf(),
            final(self).free_count() == r.0 - l.0,
            forall|p: u64| final(self).is_free(p) <==> l.0 <= p < r.0,
            forall|p: u64| final(self).in_use(p) <==> p < l.0,
    {
        self.current = l.0;
        self.end = r.0;
        self.recycled = Vec::new();
    }

    /// Takes a free frame: the one returned last, else the lowest never used.
    /// `None` exactly when no frame is free.
    pub fn alloc_ppn(&mut self) -> (r: Option<PhysPageNum>)
        requires
            old(self).wf(),
        ensures
            final(self).wf(),
            r is None <==> old(self).free_count() == 0,
            r is None ==> forall|p: u64|
                (final(self).is_free(p) <==> old(self).is_free(p)) && (final(self).in_use(p) <==> old(self).in_use(p)),
            r matches Some(f) ==> {
                &&& Some(f.0) == old(self).next_frame()
                &&& old(self).is_free(f.0)
                &&& final(self).in_use(f.0)
                &&& !final(self).is_free(f.0)
                &&& final(self).free_count() + 1 == old(self).free_count()
                &&& forall|p: u64| p != f.0 ==> (final(self).is_free(p) <==> old(self).is_free(p))
                &&& forall|p: u64| p != f.0 ==> (final(self).in_use(p) <==> old(self).in_use(p))
            },
    {
        if let Some(p) = self.recycled.pop() {
            proof {
                assert(old(self).recycled@ == self.recycled@.push(p));
                assert forall|q: u64| q != p implies (self.recycled@.contains(q) <==> old(self).recycled@.contains(q)) by {
                    if old(self).recycled@.contains(q) {
                        let k = choose|k: int| 0 <= k < old(self).recycled@.len() && old(self).recycled@[k] == q;
                        assert(self.recycled@[k] == q);
                    }
                }
                assert(!self.recycled@.contains(p)) by {
                    if self.recycled@.contains(p) {
                        let k = choose|k: int| 0 <= k < self.recycled@.len() && self.recycled@[k] == p;
                        assert(old(self).recycled@[k] == old(self).recycled@[self.recycled@.len() as int]);
                    }
                }
                assert(old(self).recycled@[old(self).recycled@.len() - 1] == p);
            }
            Some(PhysPageNum(p))
        } else if self.current == self.end {
            None
        } else {
            let p = self.current;
            self.current = self.current + 1;
            Some(PhysPageNum(p))
        }
    }

    /// Returns frame `ppn`, which must be in use.
    pub fn dealloc_ppn(&mut self, ppn: PhysPageNum)
        requires
            old(self).wf(),
            old(self).in_use(ppn.0),
        ensures
            final(self).wf(),
            final(self).is_free(ppn.0),
            !final(self).in_use(ppn.0),
            final(self).next_frame() == Some(ppn.0),
            final(self).free_count() == old(self).free_count() + 1,
            forall|p: u64| p != ppn.0 ==> (final(self).is_free(p) <==> old(self).is_free(p)),
            forall|p: u64| p != ppn.0 ==> (final(self).in_use(p) <==> old(self).in_use(p)),
    {
        self.recycled.push(ppn.0);
        proof {
            assert(self.recycled@ == old(self).recycled@.push(ppn.0));
            assert forall|q: u64| q != ppn.0 implies (self.recycled@.contains(q) <==> old(self).recycled@.contains(q)) by {
                if self.recycled@.contains(q) {
                    let k = choose|k: int| 0 <= k < self.recycled@.len() && self.recycled@[k] == q;
                    assert(old(self).recycled@[k] == q);
                }
                if old(self).recycled@.contains(q) {
                    let k = choose|k: int| 0 <= k < old(self).recycled@.len() && old(self).recycled@[k] == q;
                    assert(self.recycled@[k] == q);
                }
            }
            assert(self.recycled@[self.recycled@.len() - 1] == ppn.0);
        }
    }

    /// Whether at least `a + b` frames can still be handed out.
    pub fn has_free_for(&self, a: u64, b: u64) -> (r: bool)
        requires
            self.wf(),
        ensures
            r == (self.free_count() >= a + b),
    {
        let free: u128 = (self.end - self.current) as u128 + self.recycled.len() as u128;
        free >= a as u128 + b as u128
    }

    /// Whether at least `n` frames can still be handed out.
    pub fn has_free(&self, n: u64) -> (r: bool)
        requires
            self.wf(),
        ensures
            r == (self.free_count() >= n),
    {
        let fresh = self.end - self.current;
        if fresh >= n {
            true
        } else {
            self.recycled.len() as u64 >= n - fresh
        }
    }
}

/// A frame taken from the allocator, as a fresh zeroed `FrameTracker`.
pub fn frame_alloc(allocator: &mut StackFrameAllocator) -> (r: Option<FrameTracker>)
    requires
        old(allocator).wf(),
    ensures
        final(allocator).wf(),
        r is None <==> old(allocator).free_count() == 0,
        r is None ==> forall|p: u64| (final(allocator).in_use(p) <==> old(allocator).in_use(p)),
        r matches Some(f) ==> {
            &&& f.wf()
            &&& f.data@ == Seq::new(PAGE_SIZE as nat, |i: int| 0u8)
            &&& Some(f.ppn.0) == old(allocator).next_frame()
            &&& old(allocator).is_free(f.ppn.0)
            &&& !old(allocator).in_use(f.ppn.0)
            &&& final(allocator).in_use(f.ppn.0)
            &&& final(allocator).free_count() + 1 == old(allocator).free_count()
            &&& forall|p: u64| p != f.ppn.0 ==> (final(allocator).in_use(p) <==> old(allocator).in_use(p))
        },
{
    match allocator.alloc_ppn() {
        Some(ppn) => Some(FrameTracker::new(ppn)),
        None => None,
    }
}

/// Gives frame `frame` back to the allocator.
pub fn frame_dealloc(allocator: &mut StackFrameAllocator, frame: FrameTracker)
    requires
        old(allocator).wf(),
        old(allocator).in_use(frame.ppn.0),
    ensures
        final(allocator).wf(),
        !final(allocator).in_use(frame.ppn.0),
        final(allocator).free_count() == old(allocator).free_count() + 1,
        forall|p: u64| p != frame.ppn.0 ==> (final(allocator).in_use(p) <==> old(allocator).in_use(p)),
{
    allocator.dealloc_ppn(frame.ppn);
}

} // verus!
