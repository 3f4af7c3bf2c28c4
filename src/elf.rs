use vstd::prelude::*;

verus! {

/// ELF file type of an executable image.
pub const ELF_TYPE_EXEC: u16 = 2;

/// ELF machine number of RISC-V.
pub const EM_RISCV: u16 = 243;

/// Size in bytes of the 64-bit ELF header.
pub const EHDR64_SIZE: usize = 64;

/// Size in bytes of one 64-bit program header.
pub const PH64_SIZE: u16 = 56;

/// Program-header type of a loadable segment.
pub const PT_LOAD: u32 = 1;

/// Segment permission bits of a program header.
pub const PF_X: u32 = 1;
pub const PF_W: u32 = 2;
pub const PF_R: u32 = 4;

/// What the loader reads of a 64-bit ELF header (fields in little-endian
/// order, the byte order of the target).
#[derive(Clone, Copy, Debug, PartialEq, Eq, Structural)]
pub struct ElfHeader {
    /// The file type (`ELF_TYPE_EXEC` for an executable).
    pub kind: u16,
    /// The machine number (`EM_RISCV` for RISC-V).
    pub machine: u16,
    pub entry: u64,
    pub ph_offset: u64,
    pub ph_entry_size: u16,
    pub ph_count: u16,
}

/// What the loader reads of one program header.
#[derive(Clone, Copy, Debug, PartialEq, Eq, Structural)]
pub struct Segment {
    /// The segment is of the loadable type.
    pub loadable: bool,
    /// Permission bits (`PF_X`, `PF_W`, `PF_R`).
    pub flags: u32,
    pub offset: u64,
    pub file_size: u64,
    pub vaddr: u64,
    pub mem_size: u64,
}

/// Little-endian integer of two bytes at `at`.
pub open spec fn le16(b: Seq<u8>, at: int) -> int {
    b[at] + b[at + 1] * 256
}

/// Little-endian integer of four bytes at `at`.
pub open spec fn le32(b: Seq<u8>, at: int) -> int {
    le16(b, at) + le16(b, at + 2) * 65536
}

/// Little-endian integer of eight bytes at `at`.
pub open spec fn le64(b: Seq<u8>, at: int) -> int {
    le32(b, at) + le32(b, at + 4) * 4294967296
}

fn read_u16(b: &[u8], at: usize) -> (r: u16)
    requires
        at + 2 <= b@.len(),
    ensures
        r == le16(b@, at as int),
{
    b[at] as u16 + b[at + 1] as u16 * 256
}

fn read_u32(b: &[u8], at: usize) -> (r: u32)
    requires
        at + 4 <= b@.len(),
    ensures
        r == le32(b@, at as int),
{
    let len = b.len();
    assert(at + 4 <= len);
    read_u16(b, at) as u32 + read_u16(b, at + 2) as u32 * 65536
}

fn read_u64(b: &[u8], at: usize) -> (r: u64)
    requires
        at + 8 <= b@.len(),
    ensures
        r == le64(b@, at as int),
{
    let len = b.len();
    assert(at + 8 <= len);
    read_u32(b, at) as u64 + read_u32(b, at + 4) as u64 * 4294967296
}

/// The header of `b`, if `b` starts with an ELF header of the 64-bit class.
pub open spec fn elf_header_of(b: Seq<u8>) -> Option<ElfHeader> {
    if b.len() >= EHDR64_SIZE && b[0] == 0x7f && b[1] == 0x45 && b[2] == 0x4c && b[3] == 0x46
        && b[4] == 2 {
        Some(
            ElfHeader {
                kind: le16(b, 16) as u16,
                machine: le16(b, 18) as u16,
                entry: le64(b, 24) as u64,
                ph_offset: le64(b, 32) as u64,
                ph_entry_size: le16(b, 54) as u16,
                ph_count: le16(b, 56) as u16,
            },
        )
    } else {
        None
    }
}

/// Reads the header of `b`; `None` unless `b` starts with a 64-bit ELF
/// header.
pub fn parse_header(b: &[u8]) -> (r: Option<ElfHeader>)
    ensures
        r == elf_header_of(b@),
{
    if b.len() < EHDR64_SIZE || b[0] != 0x7f || b[1] != 0x45 || b[2] != 0x4c || b[3] != 0x46 || b[4]
        != 2 {
        return None;
    }
    Some(
        ElfHeader {
            kind: read_u16(b, 16),
            machine: read_u16(b, 18),
            entry: read_u64(b, 24),
            ph_offset: read_u64(b, 32),
            ph_entry_size: read_u16(b, 54),
            ph_count: read_u16(b, 56),
        },
    )
}

/// Number of program headers of `h`: none where the table's offset or
/// entry size is 0.
pub open spec fn ph_entries(h: ElfHeader) -> nat {
    if h.ph_offset == 0 || h.ph_entry_size == 0 {
        0
    } else {
        h.ph_count as nat
    }
}

/// The program-header table of `h` lies inside an image of `len` bytes and
/// its entries are large enough.
pub open spec fn table_readable(h: ElfHeader, len: int) -> bool {
    ph_entries(h) == 0 || (h.ph_entry_size >= PH64_SIZE && h.ph_offset + h.ph_count
        * h.ph_entry_size <= len)
}

/// The program header at byte `o` of `b`.
pub open spec fn segment_at(b: Seq<u8>, o: int) -> Segment {
    Segment {
        loadable: le32(b, o) == PT_LOAD,
        flags: le32(b, o + 4) as u32,
        offset: le64(b, o + 8) as u64,
        vaddr: le64(b, o + 16) as u64,
        file_size: le64(b, o + 32) as u64,
        mem_size: le64(b, o + 40) as u64,
    }
}

/// The program headers of `b`, in table order.
pub open spec fn elf_segments_of(b: Seq<u8>) -> Seq<Segment> {
    let h = elf_header_of(b)->0;
    Seq::new(ph_entries(h), |i: int| segment_at(b, h.ph_offset + i * h.ph_entry_size))
}

/// Reads the program headers of `b`, whose header is `h`.
pub fn parse_segments(b: &[u8], h: ElfHeader) -> (r: Vec<Segment>)
    requires
        elf_header_of(b@) == Some(h),
        table_readable(h, b@.len() as int),
    ensures
        r@ == elf_segments_of(b@),
{
    let mut r: Vec<Segment> = Vec::new();
    let n = b.len();
    let count: u16 = if h.ph_offset == 0 || h.ph_entry_size == 0 {
        0
    } else {
        h.ph_count
    };
    let mut i: u16 = 0;
    while i < count
        invariant
            count == ph_entries(h),
            n == b@.len(),
            elf_header_of(b@) == Some(h),
            table_readable(h, b@.len() as int),
            i <= count,
            r@ == elf_segments_of(b@).take(i as int),
        decreases count - i,
    {
        let esize = h.ph_entry_size as u64;
        assert((i as int) * esize + esize <= (h.ph_count as int) * esize) by (nonlinear_arith)
            requires
                i < h.ph_count,
        ;
        assert(h.ph_entry_size >= PH64_SIZE);
        let o = (h.ph_offset + i as u64 * esize) as usize;
        let s = Segment {
            loadable: read_u32(b, o) == PT_LOAD,
            flags: read_u32(b, o + 4),
            offset: read_u64(b, o + 8),
            vaddr: read_u64(b, o + 16),
            file_size: read_u64(b, o + 32),
            mem_size: read_u64(b, o + 40),
        };
        r.push(s);
        i = i + 1;
        assert(r@ =~= elf_segments_of(b@).take(i as int));
    }
    assert(elf_segments_of(b@).take(count as int) =~= elf_segments_of(b@));
    r
}

/// The entry point of an image with header `h`, if `h` describes a RISC-V
/// executable.
pub open spec fn entry_of(h: Option<ElfHeader>) -> Option<u64> {
    match h {
        Some(h) => if h.kind == ELF_TYPE_EXEC && h.machine == EM_RISCV {
            Some(h.entry)
        } else {
            None
        },
        None => None,
    }
}

/// Checks that `h` describes a RISC-V executable and returns its entry.
pub fn executable_entry(h: Option<ElfHeader>) -> (r: Option<u64>)
    ensures
        r == entry_of(h),
{
    match h {
        Some(h) => if h.kind == ELF_TYPE_EXEC && h.machine == EM_RISCV {
            Some(h.entry)
        } else {
            None
        },
        None => None,
    }
}

pub fn header_table_readable(h: ElfHeader, len: usize) -> (r: bool)
    ensures
        r == table_readable(h, len as int),
{
    if h.ph_count == 0 || h.ph_offset == 0 || h.ph_entry_size == 0 {
        return true;
    }
    let count = h.ph_count as u64;
    let esize = h.ph_entry_size as u64;
    assert(count * esize <= 65535 * 65535) by (nonlinear_arith)
        requires
            count <= 65535,
            esize <= 65535,
    ;
    let size: u64 = count * esize;
    h.ph_entry_size >= PH64_SIZE && h.ph_offset <= len as u64 && size <= len as u64 - h.ph_offset
}

} // verus!
