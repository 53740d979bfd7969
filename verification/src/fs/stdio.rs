use vstd::prelude::*;
use crate::memory::page_table::UserBuffer;

verus! {

/// Standard input.
pub struct Stdin;

/// Standard output.
pub struct Stdout;

impl Stdin {
    pub fn readable(&self) -> (r: bool)
        ensures
            r,
    {
        true
    }

    pub fn writable(&self) -> (r: bool)
        ensures
            !r,
    {
        false
    }

    /// One step of reading a character into the one-byte buffer `buf`, `c`
    /// being what the console answered (0 when nothing has come): `None`
    /// when nothing came, and the task should give up the processor and ask
    /// again; else the character's low byte is stored and 1 byte was read.
    pub fn read_step(&self, c: usize, buf: &mut UserBuffer) -> (r: Option<usize>)
        requires
            old(buf).bytes@.len() == 1,
        ensures
            c == 0 ==> r is None && final(buf).bytes@ == old(buf).bytes@,
            c != 0 ==> r == Some(1usize) && final(buf).bytes@ == seq![c as u8],
    {
        if c == 0 {
            None
        } else {
            buf.bytes.set(0, c as u8);
            assert(buf.bytes@ =~= seq![c as u8]);
            Some(1)
        }
    }
}

impl Stdout {
    pub fn readable(&self) -> (r: bool)
        ensures
            !r,
    {
        false
    }

    pub fn writable(&self) -> (r: bool)
        ensures
            r,
    {
        true
    }

    /// The number of bytes a write of `buf` to the console takes: all of them.
    pub fn write(&self, buf: &UserBuffer) -> (r: usize)
        ensures
            r == buf.bytes@.len(),
    {
        buf.len()
    }
}

} // verus!
