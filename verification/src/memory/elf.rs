use vstd::prelude::*;

verus! {

/// The fields of an ELF file header that loading reads.
#[derive(Copy, Clone, PartialEq, Eq, Debug, Structural)]
pub struct ElfHeaderInfo {
    /// A 64-bit file (else 32-bit).
    pub class64: bool,
    pub entry_point: u64,
    pub ph_offset: u64,
    pub ph_entry_size: u16,
    pub ph_count: u16,
}

/// The fields of an ELF program header that loading reads.
#[derive(Copy, Clone, PartialEq, Eq, Debug, Structural)]
pub struct ProgramHeaderInfo {
    /// Whether the segment is loadable; `None` when its type is not one the
    /// ELF format names.
    pub load: Option<bool>,
    /// Segment flag bits: 1 execute, 2 write, 4 read.
    pub flags: u32,
    pub offset: u64,
    pub virtual_addr: u64,
    pub file_size: u64,
    pub mem_size: u64,
}

/// Segment flag bits of the ELF format: execute, write, read.
pub const PF_X: u32 = 1;
pub const PF_W: u32 = 2;
pub const PF_R: u32 = 4;

/// The little-endian value of the two bytes of `d` at `o`.
pub open spec fn le16(d: Seq<u8>, o: int) -> int {
    d[o] + 256 * d[o + 1]
}

/// The little-endian value of the four bytes of `d` at `o`.
pub open spec fn le32(d: Seq<u8>, o: int) -> int {
    le16(d, o) + 0x1_0000 * le16(d, o + 2)
}

/// The little-endian value of the eight bytes of `d` at `o`.
pub open spec fn le64(d: Seq<u8>, o: int) -> int {
    le32(d, o) + 0x1_0000_0000 * le32(d, o + 4)
}

/// The ELF file header of `data`: `None` unless `data` starts with the ELF
/// magic, names the 32-bit or the 64-bit class, and holds the whole header of
/// that class (52 or 64 bytes); else its
/// entry point and the place, entry size and number of its program headers,
/// each read little-endian at its offset for the class.
#[verifier::opaque]
pub open spec fn elf_header(data: Seq<u8>) -> Option<ElfHeaderInfo> {
    if data.len() < 52 || data.subrange(0, 4) != elf_magic() || !(data[4] == 1 || data[4] == 2)
        || (data[4] == 2 && data.len() < 64) {
        None
    } else if data[4] == 2 {
        Some(ElfHeaderInfo {
            class64: true,
            entry_point: le64(data, 24) as u64,
            ph_offset: le64(data, 32) as u64,
            ph_entry_size: le16(data, 54) as u16,
            ph_count: le16(data, 56) as u16,
        })
    } else {
        Some(ElfHeaderInfo {
            class64: false,
            entry_point: le32(data, 24) as u64,
            ph_offset: le32(data, 28) as u64,
            ph_entry_size: le16(data, 42) as u16,
            ph_count: le16(data, 44) as u16,
        })
    }
}

/// Whether a program header type is one the ELF format names: the eight
/// standard ones, or an OS- or processor-specific one.
pub open spec fn known_segment_type(t: int) -> bool {
    t <= 7 || (0x6000_0000 <= t <= 0x7fff_ffff)
}

/// Program header `index` of `data`, whose file header is `h`, read at
/// `h.ph_offset + index * h.ph_entry_size` with the layout of the file's
/// class: `None` unless `data` has a file header and that header lists the
/// entry inside the file.
#[verifier::opaque]
pub open spec fn elf_program_header(data: Seq<u8>, index: u16) -> Option<ProgramHeaderInfo> {
    match elf_header(data) {
        None => None,
        Some(h) => if !(index < h.ph_count && h.ph_offset > 0 && h.ph_entry_size > 0)
            || !ph_readable(h, data.len() as int, index) {
            None
        } else {
            let o = h.ph_offset + index * h.ph_entry_size;
            let t = le32(data, o);
            let load = if t == 1 { Some(true) } else if known_segment_type(t) { Some(false) } else { None::<bool> };
            if h.class64 {
                Some(ProgramHeaderInfo {
                    load,
                    flags: le32(data, o + 4) as u32,
                    offset: le64(data, o + 8) as u64,
                    virtual_addr: le64(data, o + 16) as u64,
                    file_size: le64(data, o + 32) as u64,
                    mem_size: le64(data, o + 40) as u64,
                })
            } else {
                Some(ProgramHeaderInfo {
                    load,
                    flags: le32(data, o + 24) as u32,
                    offset: le32(data, o + 4) as u64,
                    virtual_addr: le32(data, o + 8) as u64,
                    file_size: le32(data, o + 16) as u64,
                    mem_size: le32(data, o + 20) as u64,
                })
            }
        },
    }
}

/// How a readable program header's type decides its fate: `PT_LOAD` (1) is
/// loaded; another standard type (0 to 7) or an OS- or processor-specific
/// one (0x6000_0000 to 0x7fff_ffff, such as `PT_GNU_STACK`) is read and
/// skipped; any other type makes the header unusable.
pub proof fn lemma_segment_types(data: Seq<u8>, index: u16)
    requires
        elf_header(data) is Some,
        index < elf_header(data)->0.ph_count,
        elf_header(data)->0.ph_offset > 0,
        elf_header(data)->0.ph_entry_size > 0,
        ph_readable(elf_header(data)->0, data.len() as int, index),
    ensures
        ({
            let h = elf_header(data)->0;
            let t = le32(data, h.ph_offset + index * h.ph_entry_size);
            &&& elf_program_header(data, index) is Some
            &&& t == 1 ==> elf_program_header(data, index)->0.load == Some(true)
            &&& (t != 1 && 0 <= t <= 7) ==> elf_program_header(data, index)->0.load == Some(false)
            &&& (0x6000_0000 <= t <= 0x7fff_ffff) ==> elf_program_header(data, index)->0.load == Some(false)
            &&& (7 < t < 0x6000_0000 || t > 0x7fff_ffff) ==> elf_program_header(data, index)->0.load is None
        }),
{
    reveal(elf_program_header);
}

/// The first four bytes of every ELF file.
pub open spec fn elf_magic() -> Seq<u8> {
    seq![0x7fu8, 0x45u8, 0x4cu8, 0x46u8]
}

/// Reading program header `index` stays inside the file: whenever the header
/// table has that entry, the entry lies within `len` bytes and is large
/// enough for the file's class.
pub open spec fn ph_readable(h: ElfHeaderInfo, len: int, index: u16) -> bool {
    (index < h.ph_count && h.ph_offset > 0 && h.ph_entry_size > 0) ==> {
        &&& h.ph_offset + (index + 1) * h.ph_entry_size <= len
        &&& h.ph_entry_size >= (if h.class64 { 56int } else { 32int })
    }
}

/// The two bytes of `d` at `o`, little-endian.
fn read_le16(d: &[u8], o: usize) -> (r: u64)
    requires
        o + 2 <= d@.len(),
    ensures
        r == le16(d@, o as int),
{
    d[o] as u64 + 256 * (d[o + 1] as u64)
}

/// The four bytes of `d` at `o`, little-endian.
fn read_le32(d: &[u8], o: usize) -> (r: u64)
    requires
        o + 4 <= d@.len(),
    ensures
        r == le32(d@, o as int),
        r < 0x1_0000_0000,
{
    let n = d.len();
    read_le16(d, o) + 0x1_0000 * read_le16(d, o + 2)
}

/// The eight bytes of `d` at `o`, little-endian.
fn read_le64(d: &[u8], o: usize) -> (r: u64)
    requires
        o + 8 <= d@.len(),
    ensures
        r == le64(d@, o as int),
{
    let n = d.len();
    read_le32(d, o) + 0x1_0000_0000 * read_le32(d, o + 4)
}

/// The ELF header of `data`, when the file is an ELF file of a known class
/// long enough to hold the header of its class.
pub fn parse_elf_header(data: &[u8]) -> (r: Option<ElfHeaderInfo>)
    ensures
        r == elf_header(data@),
        r is Some ==> data@.subrange(0, 4) == elf_magic(),
{
    proof {
        reveal(elf_header);
    }
    if data.len() < 52 {
        return None;
    }
    if !(data[0] == 0x7f && data[1] == 0x45 && data[2] == 0x4c && data[3] == 0x46) {
        proof {
            if data@.subrange(0, 4) == elf_magic() {
                assert(data@.subrange(0, 4)[0] == data@[0]);
                assert(data@.subrange(0, 4)[1] == data@[1]);
                assert(data@.subrange(0, 4)[2] == data@[2]);
                assert(data@.subrange(0, 4)[3] == data@[3]);
            }
        }
        return None;
    }
    proof {
        assert(data@.subrange(0, 4) =~= elf_magic());
    }
    if data[4] == 2 {
        if data.len() < 64 {
            return None;
        }
        Some(ElfHeaderInfo {
            class64: true,
            entry_point: read_le64(data, 24),
            ph_offset: read_le64(data, 32),
            ph_entry_size: read_le16(data, 54) as u16,
            ph_count: read_le16(data, 56) as u16,
        })
    } else if data[4] == 1 {
        Some(ElfHeaderInfo {
            class64: false,
            entry_point: read_le32(data, 24),
            ph_offset: read_le32(data, 28),
            ph_entry_size: read_le16(data, 42) as u16,
            ph_count: read_le16(data, 44) as u16,
        })
    } else {
        None
    }
}

/// Whether program header `index` can be read without leaving the file.
pub fn program_header_readable(h: &ElfHeaderInfo, len: usize, index: u16) -> (r: bool)
    ensures
        r == ph_readable(*h, len as int, index),
{
    if index < h.ph_count && h.ph_offset > 0 && h.ph_entry_size > 0 {
        let need: u64 = if h.class64 { 56 } else { 32 };
        if (h.ph_entry_size as u64) < need {
            return false;
        }
        assert((index as u64 + 1) * (h.ph_entry_size as u64) <= 0x1_0000 * 0x1_0000) by (nonlinear_arith)
            requires
                index < 0x1_0000,
                h.ph_entry_size < 0x1_0000,
        ;
        let span: u64 = (index as u64 + 1) * (h.ph_entry_size as u64);
        if h.ph_offset > u64::MAX - span {
            return false;
        }
        h.ph_offset + span <= len as u64
    } else {
        true
    }
}

/// Program header `index` of `data`, when the header table holds that entry
/// inside the file.
pub fn parse_program_header(data: &[u8], h: &ElfHeaderInfo, index: u16) -> (r: Option<ProgramHeaderInfo>)
    requires
        elf_header(data@) == Some(*h),
    ensures
        r == (if ph_readable(*h, data@.len() as int, index) { elf_program_header(data@, index) } else { None }),
{
    proof {
        reveal(elf_program_header);
    }
    if !program_header_readable(h, data.len(), index) {
        return None;
    }
    if !(index < h.ph_count && h.ph_offset > 0 && h.ph_entry_size > 0) {
        return None;
    }
    let n = data.len();
    let es: u64 = h.ph_entry_size as u64;
    proof {
        let i = index as int;
        assert((i + 1) * es == i * es + es) by (nonlinear_arith);
        assert(0 <= i * es) by (nonlinear_arith) requires i >= 0, es >= 0;
    }
    let o: usize = (h.ph_offset + (index as u64) * es) as usize;
    let t = read_le32(data, o);
    let load: Option<bool> = if t == 1 {
        Some(true)
    } else if t <= 7 || (0x6000_0000 <= t && t <= 0x7fff_ffff) {
        Some(false)
    } else {
        None
    };
    if h.class64 {
        Some(ProgramHeaderInfo {
            load,
            flags: read_le32(data, o + 4) as u32,
            offset: read_le64(data, o + 8),
            virtual_addr: read_le64(data, o + 16),
            file_size: read_le64(data, o + 32),
            mem_size: read_le64(data, o + 40),
        })
    } else {
        Some(ProgramHeaderInfo {
            load,
            flags: read_le32(data, o + 24) as u32,
            offset: read_le32(data, o + 4),
            virtual_addr: read_le32(data, o + 8),
            file_size: read_le32(data, o + 16),
            mem_size: read_le32(data, o + 20),
        })
    }
}

} // verus!
