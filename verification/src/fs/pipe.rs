use vstd::prelude::*;

verus! {

pub const RING_BUFFER_SIZE: usize = 32;

/// Whether a ring buffer can take or give bytes.
#[derive(Copy, Clone, PartialEq, Eq, Debug, Structural)]
pub enum RingBufferStatus {
    /// Every slot holds a byte: no write is possible.
    FULL,
    /// No slot holds a byte: no read is possible.
    EMPTY,
    /// Some slots hold bytes and some are free.
    NORMAL,
}

/// A circular queue of bytes: the bytes run from `head` to `tail`.
pub struct PipeRingBuffer {
    arr: [u8; RING_BUFFER_SIZE],
    head: usize,
    tail: usize,
    status: RingBufferStatus,
    /// The write end of the pipe, once it is known: whether it is still open.
    write_end: Option<bool>,
}

impl PipeRingBuffer {
    /// `head == tail` exactly when the queue is empty or full.
    pub closed spec fn wf(&self) -> bool {
        &&& self.head < RING_BUFFER_SIZE
        &&& self.tail < RING_BUFFER_SIZE
        &&& (self.head == self.tail) <==> (self.status != RingBufferStatus::NORMAL)
    }

    /// Number of bytes queued.
    pub closed spec fn count(&self) -> int {
        if self.status == RingBufferStatus::EMPTY {
            0
        } else if self.status == RingBufferStatus::FULL {
            RING_BUFFER_SIZE as int
        } else if self.tail > self.head {
            self.tail - self.head
        } else {
            self.tail + RING_BUFFER_SIZE - self.head
        }
    }

    /// The queued bytes, oldest first.
    pub closed spec fn view(&self) -> Seq<u8> {
        Seq::new(self.count() as nat, |i: int| self.arr@[(self.head + i) % (RING_BUFFER_SIZE as int)])
    }

    /// The write end of the pipe, once it is known: whether it is still open.
    pub closed spec fn write_end_state(&self) -> Option<bool> {
        self.write_end
    }

    /// An empty queue, with no write end known yet.
    pub fn new() -> (r: PipeRingBuffer)
        ensures
            r.wf(),
            r@ == Seq::<u8>::empty(),
            r.write_end_state() is None,
    {
        let r = PipeRingBuffer { arr: [0u8; 32], head: 0, tail: 0, status: RingBufferStatus::EMPTY, write_end: None };
        assert(r@ =~= Seq::<u8>::empty());
        r
    }

    /// Records the write end of the pipe, open.
    pub fn set_write_end(&mut self)
        ensures
            final(self).wf() == old(self).wf(),
            final(self)@ == old(self)@,
            final(self).write_end_state() == Some(true),
    {
        self.write_end = Some(true);
    }

    /// The write end of the pipe is closed.
    pub fn close_write_end(&mut self)
        requires
            old(self).write_end_state() is Some,
        ensures
            final(self).wf() == old(self).wf(),
            final(self)@ == old(self)@,
            final(self).write_end_state() == Some(false),
    {
        self.write_end = Some(false);
    }

    /// Whether the write end of the pipe is closed, so that no byte can come any more.
    pub fn all_write_ends_closed(&self) -> (r: bool)
        requires
            self.write_end_state() is Some,
        ensures
            r == (self.write_end_state() == Some(false)),
    {
        match self.write_end {
            Some(open) => !open,
            None => false,
        }
    }

    proof fn lemma_count_bounds(&self)
        requires
            self.wf(),
        ensures
            0 <= self.count() <= RING_BUFFER_SIZE,
            self.status == RingBufferStatus::EMPTY <==> self.count() == 0,
            self.status == RingBufferStatus::FULL <==> self.count() == RING_BUFFER_SIZE,
            self.tail as int == (self.head + self.count()) % (RING_BUFFER_SIZE as int),
    {
    }

    /// Appends `byte` after the queued bytes.
    pub fn write_byte(&mut self, byte: u8)
        requires
            old(self).wf(),
            old(self)@.len() < RING_BUFFER_SIZE,
        ensures
            final(self).wf(),
            final(self).write_end_state() == old(self).write_end_state(),
            final(self)@ == old(self)@.push(byte),
            run_ring(old(self)@, seq![Some(byte)]) == Some((final(self)@, Seq::<u8>::empty())),
    {
        proof { self.lemma_count_bounds(); }
        self.status = RingBufferStatus::NORMAL;
        self.arr[self.tail] = byte;
        self.tail = (self.tail + 1) % RING_BUFFER_SIZE;
        if self.tail == self.head {
            self.status = RingBufferStatus::FULL;
        }
        proof {
            let n = old(self).count();
            assert(self.count() == n + 1);
            assert forall|i: int| 0 <= i < n + 1 implies #[trigger] self@[i] == old(self)@.push(byte)[i] by {
                if i < n {
                    assert((old(self).head + i) % 32 != old(self).tail as int);
                }
            }
            assert(self@ =~= old(self)@.push(byte));
            assert(seq![Some(byte)].drop_last() =~= Seq::<Option<u8>>::empty());
            reveal_with_fuel(run_ring, 2);
        }
    }

    /// Takes the oldest queued byte.
    pub fn read_byte(&mut self) -> (r: u8)
        requires
            old(self).wf(),
            old(self)@.len() > 0,
        ensures
            final(self).wf(),
            final(self).write_end_state() == old(self).write_end_state(),
            r == old(self)@[0],
            final(self)@ == old(self)@.drop_first(),
            run_ring(old(self)@, seq![None::<u8>]) == Some((final(self)@, seq![r])),
    {
        proof { self.lemma_count_bounds(); }
        self.status = RingBufferStatus::NORMAL;
        let c = self.arr[self.head];
        self.head = (self.head + 1) % RING_BUFFER_SIZE;
        if self.head == self.tail {
            self.status = RingBufferStatus::EMPTY;
        }
        proof {
            let n = old(self).count();
            assert(self.count() == n - 1);
            assert forall|i: int| 0 <= i < n - 1 implies #[trigger] self@[i] == old(self)@.drop_first()[i] by {
                assert((self.head + i) % 32 == (old(self).head + (i + 1)) % 32);
            }
            assert(self@ =~= old(self)@.drop_first());
            assert(seq![None::<u8>].drop_last() =~= Seq::<Option<u8>>::empty());
            assert(Seq::<u8>::empty().push(old(self)@[0]) =~= seq![old(self)@[0]]);
            reveal_with_fuel(run_ring, 2);
        }
        c
    }

    /// Number of bytes that can be read.
    pub fn available_read(&self) -> (r: usize)
        requires
            self.wf(),
        ensures
            r == self@.len(),
    {
        if self.status == RingBufferStatus::EMPTY {
            0
        } else {
            if self.tail > self.head {
                self.tail - self.head
            } else {
                self.tail + RING_BUFFER_SIZE - self.head
            }
        }
    }

    /// Number of bytes that can be written.
    pub fn available_write(&self) -> (r: usize)
        requires
            self.wf(),
        ensures
            r == RING_BUFFER_SIZE - self@.len(),
    {
        proof { self.lemma_count_bounds(); }
        if self.status == RingBufferStatus::FULL {
            0
        } else {
            RING_BUFFER_SIZE - self.available_read()
        }
    }
}

/// The queued bytes and the bytes read after the operations `ops` on a ring
/// buffer queuing `q`: `Some(b)` writes `b` (what `write_byte` does), `None`
/// reads the first queued byte (what `read_byte` does); `None` when a write
/// is made with no room or a read with nothing queued.
pub open spec fn run_ring(q: Seq<u8>, ops: Seq<Option<u8>>) -> Option<(Seq<u8>, Seq<u8>)>
    decreases ops.len(),
{
    if ops.len() == 0 {
        Some((q, Seq::empty()))
    } else {
        match run_ring(q, ops.drop_last()) {
            None => None,
            Some((q1, out)) => match ops.last() {
                Some(b) => if q1.len() < RING_BUFFER_SIZE { Some((q1.push(b), out)) } else { None },
                None => if q1.len() > 0 { Some((q1.drop_first(), out.push(q1[0]))) } else { None },
            },
        }
    }
}

/// The bytes that the operations `ops` write, in order.
pub open spec fn ring_writes(ops: Seq<Option<u8>>) -> Seq<u8>
    decreases ops.len(),
{
    if ops.len() == 0 {
        Seq::empty()
    } else {
        match ops.last() {
            Some(b) => ring_writes(ops.drop_last()).push(b),
            None => ring_writes(ops.drop_last()),
        }
    }
}

/// The number of reads among the operations `ops`.
pub open spec fn ring_reads(ops: Seq<Option<u8>>) -> int
    decreases ops.len(),
{
    if ops.len() == 0 {
        0
    } else {
        ring_reads(ops.drop_last()) + if ops.last() is None { 1int } else { 0int }
    }
}

/// A ring buffer hands bytes out first in, first out: what was queued and
/// what was written since comes out as the bytes read, then the bytes still
/// queued, in the same order; one byte is read per read, and at most
/// `RING_BUFFER_SIZE` bytes are ever queued.
pub proof fn lemma_ring_fifo(q: Seq<u8>, ops: Seq<Option<u8>>)
    requires
        q.len() <= RING_BUFFER_SIZE,
        run_ring(q, ops) is Some,
    ensures
        ({
            let (q2, out) = run_ring(q, ops)->0;
            &&& q + ring_writes(ops) == out + q2
            &&& out.len() == ring_reads(ops)
            &&& q2.len() == q.len() + ring_writes(ops).len() - ring_reads(ops)
            &&& q2.len() <= RING_BUFFER_SIZE
        }),
    decreases ops.len(),
{
    if ops.len() > 0 {
        let rest = ops.drop_last();
        lemma_ring_fifo(q, rest);
        let (q1, out1) = run_ring(q, rest)->0;
        match ops.last() {
            Some(b) => {
                assert(q + ring_writes(ops) =~= (q + ring_writes(rest)).push(b));
                assert(out1 + q1.push(b) =~= (out1 + q1).push(b));
            },
            None => {
                assert(out1.push(q1[0]) + q1.drop_first() =~= out1 + q1);
            },
        }
    } else {
        assert(q + ring_writes(ops) =~= Seq::<u8>::empty() + q);
    }
}

/// `k` writes into an empty ring buffer, then `k` reads, give back the
/// written bytes in order and leave the buffer empty.
pub proof fn lemma_ring_writes_then_reads(bytes: Seq<u8>)
    requires
        bytes.len() <= RING_BUFFER_SIZE,
    ensures
        ({
            let ops = bytes.map_values(|b: u8| Some(b)) + Seq::new(bytes.len(), |i: int| None::<u8>);
            run_ring(Seq::empty(), ops) == Some((Seq::<u8>::empty(), bytes))
        }),
{
    let w = bytes.map_values(|b: u8| Some(b));
    let n = bytes.len() as int;
    assert forall|k: int| 0 <= k <= n implies #[trigger] run_ring(Seq::empty(), w.subrange(0, k))
        == Some((bytes.subrange(0, k), Seq::<u8>::empty())) by {
        lemma_ring_writes_prefix(bytes, k);
    }
    assert(w.subrange(0, n) =~= w);
    let rs = Seq::new(bytes.len(), |i: int| None::<u8>);
    assert forall|k: int| 0 <= k <= n implies #[trigger] run_ring(Seq::empty(), w + rs.subrange(0, k))
        == Some((bytes.subrange(k, n), bytes.subrange(0, k))) by {
        lemma_ring_reads_prefix(bytes, k);
    }
    assert(rs.subrange(0, n) =~= rs);
    assert(bytes.subrange(n, n) =~= Seq::<u8>::empty());
    assert(bytes.subrange(0, n) =~= bytes);
}

proof fn lemma_ring_writes_prefix(bytes: Seq<u8>, k: int)
    requires
        bytes.len() <= RING_BUFFER_SIZE,
        0 <= k <= bytes.len(),
    ensures
        run_ring(Seq::empty(), bytes.map_values(|b: u8| Some(b)).subrange(0, k))
            == Some((bytes.subrange(0, k), Seq::<u8>::empty())),
    decreases k,
{
    let w = bytes.map_values(|b: u8| Some(b));
    if k == 0 {
        assert(w.subrange(0, 0) =~= Seq::<Option<u8>>::empty());
        assert(bytes.subrange(0, 0) =~= Seq::<u8>::empty());
    } else {
        lemma_ring_writes_prefix(bytes, k - 1);
        assert(w.subrange(0, k).drop_last() =~= w.subrange(0, k - 1));
        assert(bytes.subrange(0, k - 1).push(bytes[k - 1]) =~= bytes.subrange(0, k));
    }
}

proof fn lemma_ring_reads_prefix(bytes: Seq<u8>, k: int)
    requires
        bytes.len() <= RING_BUFFER_SIZE,
        0 <= k <= bytes.len(),
    ensures
        ({
            let w = bytes.map_values(|b: u8| Some(b));
            let rs = Seq::new(bytes.len(), |i: int| None::<u8>);
            run_ring(Seq::empty(), w + rs.subrange(0, k)) == Some((bytes.subrange(k, bytes.len() as int), bytes.subrange(0, k)))
        }),
    decreases k,
{
    let n = bytes.len() as int;
    let w = bytes.map_values(|b: u8| Some(b));
    let rs = Seq::new(bytes.len(), |i: int| None::<u8>);
    if k == 0 {
        lemma_ring_writes_prefix(bytes, n);
        assert(w.subrange(0, n) =~= w);
        assert(w + rs.subrange(0, 0) =~= w);
        assert(bytes.subrange(0, n) =~= bytes.subrange(0, n));
        assert(bytes.subrange(0, 0) =~= Seq::<u8>::empty());
    } else {
        lemma_ring_reads_prefix(bytes, k - 1);
        assert((w + rs.subrange(0, k)).drop_last() =~= w + rs.subrange(0, k - 1));
        assert((w + rs.subrange(0, k)).last() is None);
        assert(bytes.subrange(k - 1, n).drop_first() =~= bytes.subrange(k, n));
        assert(bytes.subrange(0, k - 1).push(bytes.subrange(k - 1, n)[0]) =~= bytes.subrange(0, k));
    }
}

/// One end of a pipe.
#[derive(Copy, Clone, PartialEq, Eq, Debug, Structural)]
pub struct Pipe {
    readable: bool,
    writable: bool,
}

/// What a pipe end does next while serving a read or a write.
#[derive(Copy, Clone, PartialEq, Eq, Debug, Structural)]
pub enum PipeStep {
    /// Give up the processor, then try again.
    Suspend,
    /// Try again at once, this many bytes having moved in all.
    Again(usize),
    /// The call is over and moved this many bytes in all.
    Done(usize),
}

impl Pipe {
    /// The reading end.
    pub fn read_end() -> (r: Pipe)
        ensures
            r.is_readable(),
            !r.is_writable(),
    {
        Pipe { readable: true, writable: false }
    }

    /// The writing end.
    pub fn write_end() -> (r: Pipe)
        ensures
            !r.is_readable(),
            r.is_writable(),
    {
        Pipe { readable: false, writable: true }
    }

    pub closed spec fn is_readable(&self) -> bool {
        self.readable
    }

    pub closed spec fn is_writable(&self) -> bool {
        self.writable
    }

    pub fn readable(&self) -> (r: bool)
        ensures
            r == self.is_readable(),
    {
        self.readable
    }

    pub fn writable(&self) -> (r: bool)
        ensures
            r == self.is_writable(),
    {
        self.writable
    }

    /// One round of a read into `buf`, of which the first `done` bytes are
    /// already filled: with nothing queued, the read ends if every write end
    /// is closed and waits otherwise; else queued bytes move into `buf`
    /// until either runs out.
    pub fn read_step(&self, ring: &mut PipeRingBuffer, buf: &mut Vec<u8>, done: usize, write_ends_closed: bool) -> (r: PipeStep)
        requires
            self.is_readable(),
            old(ring).wf(),
            done <= old(buf)@.len(),
        ensures
            final(ring).wf(),
            final(ring).write_end_state() == old(ring).write_end_state(),
            final(buf)@.len() == old(buf)@.len(),
            ({
                let q = old(ring)@;
                let room = old(buf)@.len() - done;
                if q.len() == 0 {
                    &&& final(ring)@ == q
                    &&& final(buf)@ == old(buf)@
                    &&& r == (if write_ends_closed { PipeStep::Done(done) } else { PipeStep::Suspend })
                } else if room < q.len() {
                    &&& final(ring)@ == q.subrange(room, q.len() as int)
                    &&& final(buf)@ == old(buf)@.subrange(0, done as int) + q.subrange(0, room)
                    &&& r == PipeStep::Done(old(buf)@.len() as usize)
                } else {
                    &&& final(ring)@ == Seq::<u8>::empty()
                    &&& final(buf)@ == old(buf)@.subrange(0, done as int) + q
                        + old(buf)@.subrange(done + q.len(), old(buf)@.len() as int)
                    &&& r == PipeStep::Again((done + q.len()) as usize)
                }
            }),
    {
        let loop_read = ring.available_read();
        if loop_read == 0 {
            if write_ends_closed {
                return PipeStep::Done(done);
            }
            return PipeStep::Suspend;
        }
        let ghost q = ring@;
        let ghost b0 = buf@;
        let mut pos = done;
        let mut k: usize = 0;
        while k < loop_read
            invariant
                ring.wf(),
                ring.write_end_state() == old(ring).write_end_state(),
                q == old(ring)@,
                b0 == old(buf)@,
                loop_read == q.len(),
                k <= loop_read,
                pos == done + k,
                pos <= buf@.len(),
                buf@.len() == b0.len(),
                done <= b0.len(),
                ring@ == q.subrange(k as int, q.len() as int),
                buf@ == b0.subrange(0, done as int) + q.subrange(0, k as int) + b0.subrange(pos as int, b0.len() as int),
            decreases loop_read - k,
        {
            if pos < buf.len() {
                let c = ring.read_byte();
                buf.set(pos, c);
                proof {
                    assert(c == q[k as int]);
                    assert(buf@ =~= b0.subrange(0, done as int) + q.subrange(0, k + 1) + b0.subrange(pos + 1, b0.len() as int));
                    assert(ring@ =~= q.subrange(k + 1, q.len() as int));
                }
                pos = pos + 1;
                k = k + 1;
            } else {
                proof {
                    assert(buf@ =~= b0.subrange(0, done as int) + q.subrange(0, k as int));
                }
                return PipeStep::Done(pos);
            }
        }
        proof {
            assert(q.subrange(0, q.len() as int) =~= q);
            assert(ring@ =~= Seq::<u8>::empty());
        }
        PipeStep::Again(pos)
    }

    /// One round of a write of `buf`, of which the first `done` bytes are
    /// already written: with no room, the write waits; else bytes of `buf`
    /// are queued until the room or `buf` runs out.
    pub fn write_step(&self, ring: &mut PipeRingBuffer, buf: &Vec<u8>, done: usize) -> (r: PipeStep)
        requires
            self.is_writable(),
            old(ring).wf(),
            done <= buf@.len(),
        ensures
            final(ring).wf(),
            final(ring).write_end_state() == old(ring).write_end_state(),
            ({
                let q = old(ring)@;
                let room = RING_BUFFER_SIZE - q.len();
                let left = buf@.len() - done;
                if room == 0 {
                    &&& final(ring)@ == q
                    &&& r == PipeStep::Suspend
                } else if left < room {
                    &&& final(ring)@ == q + buf@.subrange(done as int, buf@.len() as int)
                    &&& r == PipeStep::Done(buf@.len() as usize)
                } else {
                    &&& final(ring)@ == q + buf@.subrange(done as int, done + room)
                    &&& r == PipeStep::Again((done + room) as usize)
                }
            }),
    {
        let loop_write = ring.available_write();
        if loop_write == 0 {
            return PipeStep::Suspend;
        }
        let ghost q = ring@;
        let mut pos = done;
        let mut k: usize = 0;
        while k < loop_write
            invariant
                ring.wf(),
                ring.write_end_state() == old(ring).write_end_state(),
                q == old(ring)@,
                loop_write == RING_BUFFER_SIZE - q.len(),
                k <= loop_write,
                pos == done + k,
                pos <= buf@.len(),
                done <= buf@.len(),
                ring@ == q + buf@.subrange(done as int, pos as int),
            decreases loop_write - k,
        {
            if pos < buf.len() {
                ring.write_byte(buf[pos]);
                proof {
                    assert(ring@ =~= q + buf@.subrange(done as int, pos + 1));
                }
                pos = pos + 1;
                k = k + 1;
            } else {
                return PipeStep::Done(pos);
            }
        }
        PipeStep::Again(pos)
    }
}

} // verus!

verus! {

/// A new pipe: an empty ring buffer that knows its write end is open, the
/// reading end and the writing end. Answers `(buffer, read end, write end)`.
pub fn make_pipe() -> (r: (PipeRingBuffer, Pipe, Pipe))
    ensures
        r.0.wf(),
        r.0@ == Seq::<u8>::empty(),
        r.0.write_end_state() == Some(true),
        r.1.is_readable() && !r.1.is_writable(),
        !r.2.is_readable() && r.2.is_writable(),
{
    let mut buffer = PipeRingBuffer::new();
    let read_end = Pipe::read_end();
    let write_end = Pipe::write_end();
    buffer.set_write_end();
    (buffer, read_end, write_end)
}

} // verus!
