use vstd::prelude::*;
use crate::config::PAGE_SIZE;

verus! {

/// Width of an Sv39 virtual address.
pub const VA_WIDTH_SV39: u64 = 39;
/// Mask that keeps the low 39 bits of an address.
pub const VA_MASK: u64 = 0x7f_ffff_ffff;
/// Number of pages in the Sv39 virtual address space.
pub const VPN_LIMIT: u64 = 0x800_0000;

/// A virtual address of the Sv39 space (always below 2^39).
#[derive(Clone, Copy, Debug, PartialEq, Eq, Structural)]
pub struct VirtAddr(pub u64);

/// A virtual page number (always below 2^27).
#[derive(Clone, Copy, Debug, PartialEq, Eq, Structural, PartialOrd, Ord)]
pub struct VirtPageNum(pub u64);

/// A physical page number.
#[derive(Clone, Copy, Debug, PartialEq, Eq, Structural, PartialOrd, Ord)]
pub struct PhysPageNum(pub u64);

/// A physical address.
#[derive(Clone, Copy, Debug, PartialEq, Eq, Structural)]
pub struct PhysAddr(pub u64);

/// The virtual address that a raw `usize` denotes: its low 39 bits.
pub open spec fn va_of(v: int) -> int {
    v % 0x80_0000_0000
}

/// First page touched by the byte at `va`.
pub open spec fn floor_vpn(va: int) -> int {
    va / (PAGE_SIZE as int)
}

/// First page boundary at or above `va`, as a page number.
pub open spec fn ceil_vpn(va: int) -> int {
    (va + PAGE_SIZE - 1) / (PAGE_SIZE as int)
}

impl VirtAddr {
    /// The address that `v` denotes in Sv39: its low 39 bits.
    pub fn from_u64(v: u64) -> (r: VirtAddr)
        ensures
            r.0 == va_of(v as int),
            r.0 < 0x80_0000_0000,
    {
        let r = v & VA_MASK;
        assert(v & 0x7f_ffff_ffffu64 == v % 0x80_0000_0000) by (bit_vector);
        VirtAddr(r)
    }

    /// The page that holds this address.
    pub fn floor(&self) -> (r: VirtPageNum)
        ensures
            r.0 == floor_vpn(self.0 as int),
    {
        VirtPageNum(self.0 / PAGE_SIZE as u64)
    }

    /// The first page that starts at or after this address.
    pub fn ceil(&self) -> (r: VirtPageNum)
        requires
            self.0 < 0x80_0000_0000,
        ensures
            r.0 == ceil_vpn(self.0 as int),
            r.0 <= VPN_LIMIT,
    {
        VirtPageNum((self.0 + PAGE_SIZE as u64 - 1) / PAGE_SIZE as u64)
    }

    /// Offset of this address inside its page.
    pub fn page_offset(&self) -> (r: usize)
        ensures
            r == self.0 % (PAGE_SIZE as u64),
            r < PAGE_SIZE,
    {
        (self.0 % PAGE_SIZE as u64) as usize
    }

    /// Whether the address is the start of a page.
    pub fn aligned(&self) -> (r: bool)
        ensures
            r == (self.0 % (PAGE_SIZE as u64) == 0),
    {
        self.page_offset() == 0
    }
}

impl VirtPageNum {
    /// The address of the first byte of this page.
    pub fn to_va(&self) -> (r: VirtAddr)
        requires
            self.0 <= VPN_LIMIT,
        ensures
            r.0 == self.0 * PAGE_SIZE,
    {
        VirtAddr(self.0 * PAGE_SIZE as u64)
    }
}

/// A half-open range `[start, end)` of virtual pages.
#[derive(Clone, Copy, Debug, PartialEq, Eq, Structural)]
pub struct VPNRange {
    pub start: VirtPageNum,
    pub end: VirtPageNum,
}

impl VPNRange {
    pub fn new(start: VirtPageNum, end: VirtPageNum) -> (r: VPNRange)
        requires
            start.0 <= end.0,
        ensures
            r.start == start,
            r.end == end,
    {
        VPNRange { start, end }
    }

    pub fn get_start(&self) -> (r: VirtPageNum)
        ensures
            r == self.start,
    {
        self.start
    }

    pub fn get_end(&self) -> (r: VirtPageNum)
        ensures
            r == self.end,
    {
        self.end
    }

    /// Whether page `vpn` lies in the range.
    pub open spec fn has(self, vpn: int) -> bool {
        self.start.0 <= vpn < self.end.0
    }
}

} // verus!
