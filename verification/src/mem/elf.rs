use vstd::prelude::*;
use xmas_elf::header::Class;
use xmas_elf::program::Type;
use xmas_elf::ElfFile;

verus! {

/// What an ELF file's header says: whether it is a 64-bit file, where its
/// program headers are, and where execution starts.
#[derive(Clone, Copy, PartialEq, Eq, Structural, Debug)]
pub struct ElfHeaderInfo {
    pub wide: bool,
    pub ph_count: u16,
    pub ph_offset: u64,
    pub ph_entry_size: u16,
    pub entry: u64,
}

/// What a program header says: whether the segment is loaded, where it
/// goes, where its bytes are in the file, and its access rights.
#[derive(Clone, Copy, PartialEq, Eq, Structural, Debug)]
pub struct ElfSegment {
    pub is_load: bool,
    pub virtual_addr: u64,
    pub mem_size: u64,
    pub offset: u64,
    pub file_size: u64,
    pub readable: bool,
    pub writable: bool,
    pub executable: bool,
}

/// The header that `xmas_elf` reads from `data`, or `None` when it refuses
/// the bytes. `xmas_elf` reads the fields in the byte order of the machine
/// it runs on, so the name is that of a little-endian machine.
pub uninterp spec fn elf_header_of(data: Seq<u8>) -> Option<ElfHeaderInfo>;

/// Program header `i` as `xmas_elf` reads it from `data`, or `None` when it
/// refuses it or its type; read in the byte order of the machine, as the
/// header is.
pub uninterp spec fn elf_segment_of(data: Seq<u8>, i: u16) -> Option<ElfSegment>;

/// The four bytes every ELF file starts with.
pub open spec fn elf_magic() -> Seq<u8> {
    seq![0x7fu8, 0x45u8, 0x4cu8, 0x46u8]
}

/// Size of a program header: 56 bytes in a 64-bit file, 32 in a 32-bit one.
pub open spec fn ph_size(h: ElfHeaderInfo) -> int {
    if h.wide { 56 } else { 32 }
}

/// Alignment a program header is read at: 8 in a 64-bit file, 4 in a
/// 32-bit one.
pub open spec fn ph_align(h: ElfHeaderInfo) -> int {
    if h.wide { 8 } else { 4 }
}

/// Program header `i` lies inside `data`, with room for a program header
/// of the file's class, at an offset aligned for it.
pub open spec fn ph_in_bounds(h: ElfHeaderInfo, i: u16, len: int) -> bool {
    &&& h.ph_offset + (i + 1) * h.ph_entry_size <= len
    &&& h.ph_entry_size >= ph_size(h)
    &&& (h.ph_offset + i * h.ph_entry_size) % ph_align(h) == 0
}

/// Reads the ELF header of `data` with `xmas_elf::ElfFile::new`, keeping
/// the class (`header.pt1`), the program-header table's place and size and
/// the entry point (`header.pt2`). `ElfFile::new` refuses a file that does
/// not start with the ELF magic bytes, so a header is only read from bytes
/// that do. The result is named, not stated. The parse reads the header
/// in place and asserts its alignment, so the bytes are first copied to a
/// place aligned to 8.
#[verifier::external_body]
fn elf_header(data: &[u8]) -> (r: Option<ElfHeaderInfo>)
    ensures
        r == elf_header_of(data@),
        r is Some ==> data@.len() >= 4 && data@.subrange(0, 4) == elf_magic(),
{
    let n = data.len();
    let mut buf = vec![0u8; n + 8];
    let k = (8 - buf.as_ptr() as usize % 8) % 8;
    buf[k..k + n].copy_from_slice(data);
    let h = ElfFile::new(&buf[k..k + n]).ok()?.header;
    let wide = h.pt1.class() == Class::SixtyFour;
    let (ph_count, ph_offset, ph_entry_size) = (h.pt2.ph_count(), h.pt2.ph_offset(), h.pt2.ph_entry_size());
    Some(ElfHeaderInfo { wide, ph_count, ph_offset, ph_entry_size, entry: h.pt2.entry_point() })
}

/// Reads program header `i` of `data` with `ElfFile::program_header`, and
/// its type, place, sizes and flags with the `ProgramHeader` getters. The
/// header must lie inside `data`, else `program_header` panics, and at an
/// offset aligned for its class, else the read asserts; the bytes are
/// copied to a place aligned to 8 first, as for the file header. The
/// result is named, not stated.
#[verifier::external_body]
fn elf_segment(data: &[u8], i: u16) -> (r: Option<ElfSegment>)
    requires
        elf_header_of(data@) matches Some(h) && (i < h.ph_count ==> ph_in_bounds(h, i, data@.len() as int)),
    ensures
        r == elf_segment_of(data@, i),
{
    let n = data.len();
    let mut buf = vec![0u8; n + 8];
    let k = (8 - buf.as_ptr() as usize % 8) % 8;
    buf[k..k + n].copy_from_slice(data);
    let ph = ElfFile::new(&buf[k..k + n]).ok()?.program_header(i).ok()?;
    let is_load = ph.get_type().ok()? == Type::Load;
    let (f, virtual_addr, mem_size, offset, file_size) = (ph.flags(), ph.virtual_addr(), ph.mem_size(), ph.offset(), ph.file_size());
    Some(ElfSegment { is_load, virtual_addr, mem_size, offset, file_size, readable: f.is_read(), writable: f.is_write(), executable: f.is_execute() })
}

/// The program headers of `data` as `xmas_elf` reads them, when it reads
/// the file header and every program header.
pub open spec fn elf_segments_of(data: Seq<u8>) -> Option<(ElfHeaderInfo, Seq<ElfSegment>)> {
    match elf_header_of(data) {
        Some(h) => if (forall|i: u16| i < h.ph_count ==> ph_in_bounds(h, i, data.len() as int) && #[trigger] elf_segment_of(data, i) is Some) {
            Some((h, Seq::new(h.ph_count as nat, |i: int| elf_segment_of(data, i as u16)->0)))
        } else {
            None
        },
        None => None,
    }
}

/// Reads the header and every program header of `data`; `None` when the
/// header is refused, a program header lies outside `data`, or one is
/// refused.
pub fn read_segments(data: &[u8]) -> (r: Option<(ElfHeaderInfo, Vec<ElfSegment>)>)
    ensures
        match r {
            Some((h, v)) => elf_segments_of(data@) == Some((h, v@)),
            None => elf_segments_of(data@) is None,
        },
        r is Some ==> data@.len() >= 4 && data@.subrange(0, 4) == elf_magic(),
{
    let h = match elf_header(data) {
        Some(h) => h,
        None => return None,
    };
    let mut segs: Vec<ElfSegment> = Vec::new();
    let mut i: u16 = 0;
    while i < h.ph_count
        invariant
            elf_header_of(data@) == Some(h),
            i <= h.ph_count,
            segs@.len() == i,
            forall|j: u16| j < i ==> ph_in_bounds(h, j, data@.len() as int) && #[trigger] elf_segment_of(data@, j) == Some(segs@[j as int]),
        decreases h.ph_count - i,
    {
        let n = (i as u128) + 1;
        let es = h.ph_entry_size as u128;
        proof {
            assert(n * es <= 0x1_0000 * 0x1_0000 && (i as u128) * es <= 0x1_0000 * 0x1_0000 && n * es == (i as u128) * es + es) by (nonlinear_arith)
                requires
                    n <= 0x1_0000,
                    n == i + 1,
                    es <= 0x1_0000,
            ;
        }
        let start = (h.ph_offset as u128) + (i as u128) * es;
        let (min_size, align): (u16, u128) = if h.wide { (56, 8) } else { (32, 4) };
        let fits = start + es <= (data.len() as u128) && h.ph_entry_size >= min_size && start % align == 0;
        if !fits {
            proof {
                assert(!ph_in_bounds(h, i, data@.len() as int));
                assert(!(ph_in_bounds(h, i, data@.len() as int) && elf_segment_of(data@, i) is Some));
            }
            return None;
        }
        let seg = match elf_segment(data, i) {
            Some(seg) => seg,
            None => {
                proof {
                    assert(!(ph_in_bounds(h, i, data@.len() as int) && elf_segment_of(data@, i) is Some));
                }
                return None;
            },
        };
        segs.push(seg);
        i = i + 1;
    }
    proof {
        let sq = Seq::new(h.ph_count as nat, |k: int| elf_segment_of(data@, k as u16)->0);
        assert(sq =~= segs@) by {
            assert forall|k: int| 0 <= k < sq.len() implies sq[k] == segs@[k] by {
                assert(elf_segment_of(data@, k as u16) == Some(segs@[k]));
            }
        }
    }
    Some((h, segs))
}

} // verus!
