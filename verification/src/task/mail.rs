use vstd::prelude::*;
use std::collections::VecDeque;
use crate::memory::page_table::UserBuffer;

verus! {

pub const MAX_MAIL_LENGTH: usize = 256;
/// A mailbox holds at most this many mails.
pub const MAX_MAIL_NUM: usize = 16;

/// One mail: up to `MAX_MAIL_LENGTH` bytes.
pub struct MailBuffer {
    arr: [u8; MAX_MAIL_LENGTH],
    length: usize,
}

impl MailBuffer {
    pub closed spec fn wf(&self) -> bool {
        self.length <= MAX_MAIL_LENGTH
    }

    /// The bytes of the mail.
    pub closed spec fn view(&self) -> Seq<u8> {
        self.arr@.subrange(0, self.length as int)
    }

    /// An empty mail.
    pub fn new() -> (r: MailBuffer)
        ensures
            r.wf(),
            r@ == Seq::<u8>::empty(),
    {
        let r = MailBuffer { arr: [0u8; 256], length: 0 };
        assert(r@ =~= Seq::<u8>::empty());
        r
    }

    /// Copies the mail to the start of `buf`, as much as fits; answers the
    /// number of bytes copied.
    pub fn read_all(&self, buf: &mut UserBuffer) -> (r: usize)
        requires
            self.wf(),
        ensures
            r == (if self@.len() < old(buf).bytes@.len() { self@.len() } else { old(buf).bytes@.len() }),
            final(buf).bytes@ == self@.subrange(0, r as int) + old(buf).bytes@.subrange(r as int, old(buf).bytes@.len() as int),
    {
        if self.length == 0 {
            assert(buf.bytes@ =~= self@.subrange(0, 0) + buf.bytes@.subrange(0, buf.bytes@.len() as int));
            return 0;
        }
        let mut len = buf.len();
        if len > self.length {
            len = self.length;
        }
        let ghost b0 = buf.bytes@;
        let mut i: usize = 0;
        while i < len
            invariant
                self.wf(),
                len <= self.length,
                len <= b0.len(),
                b0 == old(buf).bytes@,
                i <= len,
                buf.bytes@ == self@.subrange(0, i as int) + b0.subrange(i as int, b0.len() as int),
            decreases len - i,
        {
            buf.bytes.set(i, self.arr[i]);
            proof {
                assert(buf.bytes@ =~= self@.subrange(0, i + 1) + b0.subrange(i + 1, b0.len() as int));
            }
            i = i + 1;
        }
        len
    }

    /// Replaces the mail by the start of `buf`, as much as fits; answers the
    /// new length.
    pub fn write_all(&mut self, buf: &UserBuffer) -> (r: usize)
        ensures
            final(self).wf(),
            r == (if buf.bytes@.len() < MAX_MAIL_LENGTH { buf.bytes@.len() as int } else { MAX_MAIL_LENGTH as int }),
            final(self)@ == buf.bytes@.subrange(0, r as int),
    {
        self.length = 0;
        loop
            invariant
                self.length <= MAX_MAIL_LENGTH,
                self.length <= buf.bytes@.len(),
                self@ == buf.bytes@.subrange(0, self.length as int),
            decreases MAX_MAIL_LENGTH - self.length,
        {
            if self.length == MAX_MAIL_LENGTH {
                return self.length;
            } else if self.length < buf.len() {
                let b = buf.bytes[self.length];
                self.arr[self.length] = b;
                self.length = self.length + 1;
                proof {
                    assert(self@ =~= buf.bytes@.subrange(0, self.length as int));
                }
            } else {
                return self.length;
            }
        }
    }

    /// Number of bytes of the mail.
    pub fn len(&self) -> (r: usize)
        requires
            self.wf(),
        ensures
            r == self@.len(),
    {
        self.length
    }
}

/// A task's mailbox: mails in the order they came, at most `MAX_MAIL_NUM`.
pub struct MailBox {
    mails: VecDeque<MailBuffer>,
}

impl MailBox {
    pub closed spec fn wf(&self) -> bool {
        &&& self.mails@.len() <= MAX_MAIL_NUM
        &&& forall|i: int| 0 <= i < self.mails@.len() ==> (#[trigger] self.mails@[i]).wf()
    }

    /// The mails, oldest first.
    pub closed spec fn view(&self) -> Seq<Seq<u8>> {
        self.mails@.map_values(|m: MailBuffer| m@)
    }

    pub fn new() -> (r: MailBox)
        ensures
            r.wf(),
            r@ == Seq::<Seq<u8>>::empty(),
    {
        let r = MailBox { mails: VecDeque::new() };
        assert(r@ =~= Seq::<Seq<u8>>::empty());
        r
    }

    pub fn is_empty(&self) -> (r: bool)
        ensures
            r == (self@.len() == 0),
    {
        self.mails.len() == 0
    }

    pub fn is_full(&self) -> (r: bool)
        ensures
            r == (self@.len() >= MAX_MAIL_NUM),
    {
        self.mails.len() >= MAX_MAIL_NUM
    }

    /// Takes the oldest mail, if any.
    pub fn get_mail(&mut self) -> (r: Option<MailBuffer>)
        requires
            old(self).wf(),
        ensures
            final(self).wf(),
            old(self)@.len() == 0 ==> r is None && final(self)@ == old(self)@,
            old(self)@.len() > 0 ==> r is Some && r->0.wf() && r->0@ == old(self)@[0]
                && r->0@.len() <= MAX_MAIL_LENGTH && final(self)@ == old(self)@.drop_first(),
    {
        let r = self.mails.pop_front();
        proof {
            if old(self)@.len() > 0 {
                assert(self@ =~= old(self)@.drop_first());
                assert(old(self).mails@[0].wf());
            } else {
                assert(self@ =~= old(self)@);
            }
        }
        r
    }

    /// Adds a mail holding the start of `buf`, as much as a mail holds,
    /// unless the mailbox is full; answers the mail's length.
    pub fn post(&mut self, buf: &UserBuffer) -> (r: Option<usize>)
        requires
            old(self).wf(),
        ensures
            final(self).wf(),
            old(self)@.len() >= MAX_MAIL_NUM ==> r is None && final(self)@ == old(self)@,
            old(self)@.len() < MAX_MAIL_NUM ==> {
                let n = if buf.bytes@.len() < MAX_MAIL_LENGTH { buf.bytes@.len() as int } else { MAX_MAIL_LENGTH as int };
                &&& r == Some(n as usize)
                &&& final(self)@ == old(self)@.push(buf.bytes@.subrange(0, n))
            },
    {
        if self.mails.len() >= MAX_MAIL_NUM {
            return None;
        }
        let mut mail = MailBuffer::new();
        let n = mail.write_all(buf);
        self.mails.push_back(mail);
        proof {
            assert(self@ =~= old(self)@.push(buf.bytes@.subrange(0, n as int)));
        }
        Some(n)
    }
}

} // verus!
