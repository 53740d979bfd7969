use vstd::prelude::*;

pub mod pipe;
pub mod stdio;

verus! {

/// File type bits of `Stat::mode`: none.
pub const STAT_MODE_NULL: u32 = 0;
/// A directory.
pub const STAT_MODE_DIR: u32 = 0o040000;
/// An ordinary regular file.
pub const STAT_MODE_FILE: u32 = 0o100000;

/// The type of a file, as its mode bits.
#[derive(Clone, Copy, Debug, PartialEq, Eq, Structural)]
pub struct StatMode {
    pub bits: u32,
}

/// What fstat reports of a file.
pub struct Stat {
    /// The disk device that holds the file.
    pub dev: u64,
    /// The file's inode number.
    pub ino: u64,
    pub mode: StatMode,
    /// Number of hard links.
    pub nlink: u32,
    /// Reserved.
    pub pad: [u64; 7],
}

impl Stat {
    /// Clears every field.
    pub fn set_empty(&mut self)
        ensures
            final(self).dev == 0,
            final(self).ino == 0,
            final(self).nlink == 0,
            final(self).mode.bits == STAT_MODE_NULL,
            final(self).pad@ == Seq::new(7, |i: int| 0u64),
    {
        self.dev = 0;
        self.ino = 0;
        self.nlink = 0;
        self.mode = StatMode { bits: STAT_MODE_NULL };
        self.pad = [0u64; 7];
        assert(self.pad@ =~= Seq::new(7, |i: int| 0u64));
    }
}

} // verus!
