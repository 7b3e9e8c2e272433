//! The decisions of the chapter-eight loader: which ELF files it accepts, where
//! each loadable segment lands in an Sv39 address space and with which rights,
//! and the fixed user stack and `satp` of a new process.
use vstd::prelude::*;
use xmas_elf::header::{HeaderPt2, Machine};
use xmas_elf::{program, ElfFile};

verus! {

/// What the loader reads of an ELF header.
#[derive(Clone, Copy, Debug)]
pub struct ElfHeaderInfo {
    /// The file has a 64-bit header.
    pub is_64: bool,
    /// The object file type (`e_type`; 2 is an executable).
    pub elf_type: u16,
    /// The file targets RISC-V.
    pub is_riscv: bool,
    /// The entry point.
    pub entry: u64,
    /// File offset of the program header table.
    pub ph_offset: u64,
    /// Bytes of one program header table entry.
    pub ph_entry_size: u16,
    /// Number of program header table entries.
    pub ph_count: u16,
}

/// The object file type of an executable.
pub const ET_EXEC: u16 = 2;

/// What the loader reads of one program header.
#[derive(Clone, Copy, Debug)]
pub struct ProgramHeaderInfo {
    /// The segment is of type `LOAD`.
    pub is_load: bool,
    /// Offset of the segment in the file.
    pub offset: u64,
    /// Bytes of the segment in the file.
    pub file_size: u64,
    /// Virtual address of the segment.
    pub virtual_addr: u64,
    /// Bytes of the segment in memory.
    pub mem_size: u64,
    /// `PF_X`, `PF_W`, `PF_R` bits.
    pub flags: u32,
}

/// One loadable segment placed in the address space: virtual pages
/// `vpn_start..vpn_end`, filled from `file_len` bytes of the file at `file_start`,
/// copied `page_offset` bytes into the first page, mapped with `flags`.
#[derive(Clone, Copy, Debug)]
pub struct SegmentMap {
    /// First virtual page.
    pub vpn_start: u64,
    /// One past the last virtual page.
    pub vpn_end: u64,
    /// Offset of the segment's bytes in the file.
    pub file_start: u64,
    /// Number of bytes taken from the file.
    pub file_len: u64,
    /// Offset of the data in the first page.
    pub page_offset: u64,
    /// Mapping rights, as the five characters `U X W R V` with `_` for a right not
    /// given.
    pub flags: [u8; 5],
}

/// An address cut to the 39 bits of an Sv39 virtual address.
pub open spec fn sv39_cut(v: int) -> int {
    v % 0x80_0000_0000
}

/// The page that holds the address `v`.
pub open spec fn vpn_floor(v: int) -> int {
    sv39_cut(v) / 4096
}

/// The first page wholly above the address `v`.
pub open spec fn vpn_ceil(v: int) -> int {
    (sv39_cut(v) + 4095) / 4096
}

/// `floor` of an Sv39 virtual address: the page holding it.
pub fn page_floor(v: u64) -> (r: u64)
    ensures
        r == vpn_floor(v as int),
{
    let cut = v & 0x7f_ffff_ffff;
    assert(cut == v % 0x80_0000_0000) by (bit_vector)
        requires
            cut == v & 0x7f_ffff_ffffu64,
    ;
    let r = cut >> 12;
    assert(r == cut / 4096) by (bit_vector)
        requires
            r == cut >> 12u64,
    ;
    r
}

/// `ceil` of an Sv39 virtual address: the first page wholly above it.
pub fn page_ceil(v: u64) -> (r: u64)
    ensures
        r == vpn_ceil(v as int),
{
    let cut = v & 0x7f_ffff_ffff;
    assert(cut == v % 0x80_0000_0000) by (bit_vector)
        requires
            cut == v & 0x7f_ffff_ffffu64,
    ;
    let up = cut + 4095;
    let r = up >> 12;
    assert(r == up / 4096) by (bit_vector)
        requires
            r == up >> 12u64,
    ;
    r
}

/// The mapping rights of a segment with ELF flags `flags`: user, then execute,
/// write and read where the flags give them, then valid.
pub open spec fn rights(flags: u32) -> Seq<u8> {
    seq![
        0x55u8,
        if flags % 2 == 1 { 0x58u8 } else { 0x5fu8 },
        if (flags / 2) % 2 == 1 { 0x57u8 } else { 0x5fu8 },
        if (flags / 4) % 2 == 1 { 0x52u8 } else { 0x5fu8 },
        0x56u8,
    ]
}

/// The mapping rights follow the ELF flag bits one for one, each whatever the
/// others: always user (`U`) first and valid (`V`) last; execute (`X`) exactly when
/// `PF_X` (1) is set, write (`W`) exactly when `PF_W` (2) is set, read (`R`)
/// exactly when `PF_R` (4) is set, and `_` in each place whose bit is clear.
pub proof fn lemma_rights_follow_flags(flags: u32)
    ensures
        rights(flags).len() == 5,
        rights(flags)[0] == 0x55u8 && rights(flags)[4] == 0x56u8,
        rights(flags)[1] == if flags & 1 == 1 { 0x58u8 } else { 0x5fu8 },
        rights(flags)[2] == if flags & 2 == 2 { 0x57u8 } else { 0x5fu8 },
        rights(flags)[3] == if flags & 4 == 4 { 0x52u8 } else { 0x5fu8 },
{
    assert((flags & 1 == 1) == (flags % 2 == 1) && (flags & 2 == 2) == ((flags / 2) % 2 == 1) && (flags & 4
        == 4) == ((flags / 4) % 2 == 1)) by (bit_vector);
}

/// The mapping rights of a segment, as the string that the page-table flags parser
/// reads.
pub fn segment_flags(flags: u32) -> (r: [u8; 5])
    ensures
        r@ == rights(flags),
        r@[0] == 0x55u8 && r@[4] == 0x56u8,
        r@[1] == if flags & 1 == 1 { 0x58u8 } else { 0x5fu8 },
        r@[2] == if flags & 2 == 2 { 0x57u8 } else { 0x5fu8 },
        r@[3] == if flags & 4 == 4 { 0x52u8 } else { 0x5fu8 },
{
    proof {
        lemma_rights_follow_flags(flags);
    }
    let mut r: [u8; 5] = [0x55, 0x5f, 0x5f, 0x5f, 0x56];
    let x = flags & 1 == 1;
    let w = flags & 2 == 2;
    let rd = flags & 4 == 4;
    assert(x == (flags % 2 == 1) && w == ((flags / 2) % 2 == 1) && rd == ((flags / 4) % 2 == 1)) by (bit_vector)
        requires
            x == (flags & 1 == 1),
            w == (flags & 2 == 2),
            rd == (flags & 4 == 4),
    ;
    if x {
        r[1] = 0x58;
    }
    if w {
        r[2] = 0x57;
    }
    if rd {
        r[3] = 0x52;
    }
    assert(r@ =~= rights(flags));
    r
}

/// The entry point, when the header is that of a 64-bit RISC-V executable.
pub open spec fn accepted_entry(h: ElfHeaderInfo) -> Option<u64> {
    if h.is_64 && h.elf_type == ET_EXEC && h.is_riscv {
        Some(h.entry)
    } else {
        None
    }
}

/// The entry point of a 64-bit RISC-V executable; any other file is refused.
pub fn entry_point(h: &ElfHeaderInfo) -> (r: Option<u64>)
    ensures
        r == accepted_entry(*h),
{
    if h.is_64 && h.elf_type == ET_EXEC && h.is_riscv {
        Some(h.entry)
    } else {
        None
    }
}

/// A loadable segment can be placed: its file bytes lie inside the file, its end
/// address does not wrap, and its file offset and address agree within a page.
pub open spec fn placeable(ph: ProgramHeaderInfo, input_len: int) -> bool {
    &&& ph.offset + ph.file_size <= input_len
    &&& ph.virtual_addr + ph.mem_size <= u64::MAX
    &&& ph.offset % 4096 == ph.virtual_addr % 4096
}

/// The placed segment `m` is where the loadable segment `ph` lands: from the page
/// holding its start address to the first page above its end address, with its
/// file bytes, its offset within the first page, and the rights of its flags.
pub open spec fn placed_as(m: SegmentMap, ph: ProgramHeaderInfo) -> bool {
    let off_mem = ph.virtual_addr;
    let end_mem = off_mem + ph.mem_size;
    &&& m.vpn_start == vpn_floor(off_mem as int)
    &&& m.vpn_end == vpn_ceil(end_mem)
    &&& m.file_start == ph.offset
    &&& m.file_len == ph.file_size
    &&& m.page_offset == off_mem % 4096
    &&& m.flags@ == rights(ph.flags)
}

/// Places one loadable segment.
pub fn place_segment(ph: &ProgramHeaderInfo) -> (r: SegmentMap)
    requires
        ph.virtual_addr + ph.mem_size <= u64::MAX,
    ensures
        placed_as(r, *ph),
{
    let off_file = ph.offset;
    let len_file = ph.file_size;
    let off_mem = ph.virtual_addr;
    let end_mem = off_mem + ph.mem_size;
    let page_offset = off_mem & 0xfff;
    assert(page_offset == off_mem % 4096) by (bit_vector)
        requires
            page_offset == off_mem & 0xfffu64,
    ;
    SegmentMap {
        vpn_start: page_floor(off_mem),
        vpn_end: page_ceil(end_mem),
        file_start: off_file,
        file_len: len_file,
        page_offset,
        flags: segment_flags(ph.flags),
    }
}

/// The loadable segments of `phs`, in order.
pub open spec fn loadable(phs: Seq<ProgramHeaderInfo>) -> Seq<ProgramHeaderInfo>
    decreases phs.len(),
{
    if phs.len() == 0 {
        Seq::empty()
    } else if phs.last().is_load {
        loadable(phs.drop_last()).push(phs.last())
    } else {
        loadable(phs.drop_last())
    }
}

/// Places every loadable segment of a program, in the order of its program
/// headers, skipping the other segments.
pub fn plan_segments(phs: &[ProgramHeaderInfo], input_len: u64) -> (r: Vec<SegmentMap>)
    requires
        forall|i: int| 0 <= i < phs@.len() && (#[trigger] phs@[i]).is_load ==> placeable(phs@[i], input_len as int),
    ensures
        r@.len() == loadable(phs@).len(),
        forall|i: int| 0 <= i < r@.len() ==> placed_as(#[trigger] r@[i], loadable(phs@)[i]),
{
    let mut r: Vec<SegmentMap> = Vec::new();
    let mut k: usize = 0;
    while k < phs.len()
        invariant
            k <= phs@.len(),
            forall|i: int| 0 <= i < phs@.len() && (#[trigger] phs@[i]).is_load ==> placeable(phs@[i], input_len as int),
            r@.len() == loadable(phs@.take(k as int)).len(),
            forall|i: int| 0 <= i < r@.len() ==> placed_as(#[trigger] r@[i], loadable(phs@.take(k as int))[i]),
        decreases phs@.len() - k,
    {
        let ph = &phs[k];
        let ghost prev = loadable(phs@.take(k as int));
        assert(phs@.take(k + 1).drop_last() =~= phs@.take(k as int));
        assert(phs@.take(k + 1).last() == phs@[k as int]);
        if ph.is_load {
            let m = place_segment(ph);
            r.push(m);
            proof {
                let now = loadable(phs@.take(k + 1));
                assert(now == prev.push(phs@[k as int]));
                assert forall|i: int| 0 <= i < r@.len() implies placed_as(#[trigger] r@[i], now[i]) by {
                    if i < prev.len() {
                        assert(now[i] == prev[i]);
                    }
                }
            }
        }
        k = k + 1;
    }
    assert(phs@.take(k as int) =~= phs@);
    r
}

/// An ELF file as xmas-elf reads it: a copy of its bytes in a buffer of 64-bit
/// words, so that every offset of the file that 8 divides lies at an address that
/// 8 divides, as xmas-elf's readers assert; the file's length; and the header
/// that xmas-elf read from the copy.  Only `parse_elf` makes one.
pub struct ElfImage {
    words: Vec<u64>,
    len: usize,
    header: ElfHeaderInfo,
}

/// The file opens with the ELF magic number.
pub open spec fn has_magic(bytes: Seq<u8>) -> bool {
    &&& bytes.len() >= 4
    &&& bytes[0] == 0x7f && bytes[1] == 0x45 && bytes[2] == 0x4c && bytes[3] == 0x46
}

/// xmas-elf reads a header from the file: it opens with the magic number, its class
/// byte says 32-bit (1) or 64-bit (2), and it is long enough for both header parts
/// (16 + 36 bytes for 32-bit, 16 + 48 for 64-bit).
pub open spec fn elf_accepts(bytes: Seq<u8>) -> bool {
    &&& bytes.len() >= 16
    &&& has_magic(bytes)
    &&& (bytes[4] == 1 && bytes.len() >= 52) || (bytes[4] == 2 && bytes.len() >= 64)
}

/// The `n` bytes of the file from offset `at` are all zero.
pub open spec fn zero_bytes(bytes: Seq<u8>, at: int, n: int) -> bool {
    forall|k: int| 0 <= k < n ==> #[trigger] bytes[at + k] == 0
}

/// The `n`-byte field at offset `at` holds the small number `v` (below 256) in one
/// byte order or the other: `v` in its first byte and zeros after, or zeros and `v`
/// in its last byte.
pub open spec fn small_field(bytes: Seq<u8>, at: int, n: int, v: int) -> bool {
    ||| bytes[at] == v && zero_bytes(bytes, at + 1, n - 1)
    ||| zero_bytes(bytes, at, n - 1) && bytes[at + n - 1] == v
}

/// What holds of the header `h` that xmas-elf reads from the file `bytes` in either
/// byte order: the file is one it reads; the header is 64-bit exactly when the class
/// byte says so; and for a 64-bit header, an executable type and the RISC-V machine
/// show in their fields' bytes, and the table offset, entry size and entry count are
/// zero exactly when all their bytes are.
pub open spec fn header_agrees(h: ElfHeaderInfo, bytes: Seq<u8>) -> bool {
    &&& elf_accepts(bytes)
    &&& h.is_64 == (bytes[4] == 2)
    &&& h.is_64 ==> {
        &&& (h.elf_type == ET_EXEC ==> small_field(bytes, 16, 2, 2))
        &&& (h.is_riscv ==> small_field(bytes, 18, 2, 0xf3))
        &&& (h.ph_offset == 0) == zero_bytes(bytes, 32, 8)
        &&& (h.ph_entry_size == 0) == zero_bytes(bytes, 54, 2)
        &&& (h.ph_count == 0) == zero_bytes(bytes, 56, 2)
    }
}

/// Reads the ELF header of `bytes` with `xmas_elf::ElfFile::new`, on a copy that
/// `bytemuck::pod_collect_to_vec` makes in a word buffer (zero-padded to whole
/// words) and `bytemuck::cast_slice` shows as bytes; `None` when xmas-elf refuses
/// the file (a wrong magic number or class, or a file shorter than its header).
/// As `parse_header` and zero's `read` show, it reads a header exactly when the
/// file has the magic number, a 32- or 64-bit class byte and room for both header
/// parts.  It reads the numbers in the host's byte order, so the contract states
/// what holds on every host: the image keeps the file's length, the buffer holds
/// that many bytes, and the header agrees with the file's bytes as
/// `header_agrees` says.
#[verifier::external_body]
fn parse_elf(bytes: &[u8]) -> (r: Option<ElfImage>)
    ensures
        r is Some == elf_accepts(bytes@),
        r matches Some(img) ==> img.len == bytes@.len() && img.len <= img.words@.len() * 8 && header_agrees(
            img.header,
            bytes@,
        ),
{
    let words: Vec<u64> = bytemuck::pod_collect_to_vec(bytes);
    let header = match ElfFile::new(&bytemuck::cast_slice::<u64, u8>(&words)[..bytes.len()]) {
        Ok(elf) => {
            let h = elf.header.pt2;
            ElfHeaderInfo {
                is_64: matches!(h, HeaderPt2::Header64(_)), elf_type: h.type_().0,
                is_riscv: matches!(h.machine().as_machine(), Machine::RISC_V), entry: h.entry_point(),
                ph_offset: h.ph_offset(), ph_entry_size: h.ph_entry_size(), ph_count: h.ph_count(),
            }
        },
        Err(_) => return None,
    };
    Some(ElfImage { words, len: bytes.len(), header })
}

/// The header names a program header table (xmas-elf reads no entry otherwise).
pub open spec fn has_table(h: ElfHeaderInfo) -> bool {
    h.ph_offset > 0 && h.ph_entry_size > 0
}

/// Entry `index` of the program header table of a 64-bit file of `len` bytes lies
/// inside the file, is large enough for a 64-bit program header, and starts at an
/// offset that 8 divides.
pub open spec fn entry_readable(h: ElfHeaderInfo, index: int, len: int) -> bool {
    &&& h.ph_offset + (index + 1) * h.ph_entry_size <= len
    &&& h.ph_entry_size >= 56
    &&& (h.ph_offset + index * h.ph_entry_size) % 8 == 0
}

/// Every entry of the program header table that xmas-elf would read lies inside a
/// file of `len` bytes, is large enough for a 64-bit program header and starts at
/// an offset that 8 divides.  A header that names no table, or a table of no
/// entries, has nothing to read.
pub open spec fn table_fits(h: ElfHeaderInfo, len: int) -> bool {
    has_table(h) && h.ph_count > 0 ==> h.ph_entry_size >= 56 && forall|i: int|
        0 <= i < h.ph_count ==> #[trigger] entry_readable(h, i, len)
}

/// Whether the program header table of the 64-bit header `h` can be read from a
/// file of `len` bytes: every entry lies inside the file, holds a 64-bit program
/// header and starts at an offset that 8 divides.
pub fn table_readable(h: &ElfHeaderInfo, len: u64) -> (r: bool)
    ensures
        r == table_fits(*h, len as int),
{
    if !(h.ph_offset > 0 && h.ph_entry_size > 0 && h.ph_count > 0) {
        return true;
    }
    if h.ph_entry_size < 56 {
        return false;
    }
    let mut i: u16 = 0;
    while i < h.ph_count
        invariant
            has_table(*h),
            h.ph_entry_size >= 56,
            i <= h.ph_count,
            forall|j: int| 0 <= j < i ==> #[trigger] entry_readable(*h, j, len as int),
        decreases h.ph_count - i,
    {
        assert((i as u64) * (h.ph_entry_size as u64) <= 0xffff * 0xffff) by (nonlinear_arith)
            requires
                i <= 0xffff,
                h.ph_entry_size <= 0xffff,
        ;
        let step: u64 = (i as u64) * (h.ph_entry_size as u64);
        let start: u128 = h.ph_offset as u128 + step as u128;
        assert(h.ph_offset + (i + 1) * h.ph_entry_size == start + h.ph_entry_size) by (nonlinear_arith)
            requires
                step == i * h.ph_entry_size,
                start == h.ph_offset + step,
        ;
        if start + (h.ph_entry_size as u128) > len as u128 || start % 8 != 0 {
            assert(!entry_readable(*h, i as int, len as int));
            return false;
        }
        assert(entry_readable(*h, i as int, len as int));
        i = i + 1;
    }
    true
}

/// Reads program header `index` of a 64-bit image with
/// `xmas_elf::ElfFile::program_header` (after `xmas_elf::ElfFile::new` on the same
/// word-buffer copy that `parse_elf` read): whether it is `PT_LOAD`, its file
/// offset and size, virtual address, memory size and flags.  As the source shows,
/// it gives an entry exactly when `index` is below the entry count and the header
/// names a table; the values depend on the host's byte order and are not stated.
#[verifier::external_body]
fn read_program_header(img: &ElfImage, index: u16) -> (r: Option<ProgramHeaderInfo>)
    requires
        img.len <= img.words@.len() * 8,
        img.header.is_64,
        index < img.header.ph_count && has_table(img.header) ==> entry_readable(img.header, index as int, img.len as int),
    ensures
        r is Some == (index < img.header.ph_count && has_table(img.header)),
{
    let ph = match ElfFile::new(&bytemuck::cast_slice::<u64, u8>(&img.words)[..img.len]) {
        Ok(elf) => elf.program_header(index),
        Err(e) => Err(e),
    };
    match ph {
        Ok(ph) => Some(ProgramHeaderInfo {
            is_load: matches!(ph.get_type(), Ok(program::Type::Load)),
            offset: ph.offset(),
            file_size: ph.file_size(),
            virtual_addr: ph.virtual_addr(),
            mem_size: ph.mem_size(),
            flags: ph.flags().0,
        }),
        Err(_) => None,
    }
}

/// Every loadable segment of `phs` can be placed in a file of `len` bytes.
pub open spec fn segments_placeable(phs: Seq<ProgramHeaderInfo>, len: int) -> bool {
    forall|i: int| 0 <= i < phs.len() && (#[trigger] phs[i]).is_load ==> placeable(phs[i], len)
}

/// `entry` and `plan` are the loading plan of a program with header `h` and
/// program headers `phs`, from a file of `len` bytes: the header is that of a
/// 64-bit RISC-V executable with entry point `entry`, every loadable segment can be
/// placed, and `plan` places them in order.
pub open spec fn plans(
    h: ElfHeaderInfo,
    phs: Seq<ProgramHeaderInfo>,
    len: int,
    entry: u64,
    plan: Seq<SegmentMap>,
) -> bool {
    &&& accepted_entry(h) == Some(entry)
    &&& segments_placeable(phs, len)
    &&& plan.len() == loadable(phs).len()
    &&& forall|i: int| 0 <= i < plan.len() ==> placed_as(#[trigger] plan[i], loadable(phs)[i])
}

/// The loadable segments of placeable program headers are placeable.
proof fn lemma_loadable_placeable(phs: Seq<ProgramHeaderInfo>, len: int)
    requires
        segments_placeable(phs, len),
    ensures
        forall|i: int| 0 <= i < loadable(phs).len() ==> placeable(#[trigger] loadable(phs)[i], len),
    decreases phs.len(),
{
    if phs.len() > 0 {
        let rest = phs.drop_last();
        assert(segments_placeable(rest, len)) by {
            assert forall|i: int| 0 <= i < rest.len() && (#[trigger] rest[i]).is_load implies placeable(rest[i], len) by {
                assert(rest[i] == phs[i]);
            }
        }
        lemma_loadable_placeable(rest, len);
        let last = phs[phs.len() - 1];
        assert(phs.last() == last);
        if last.is_load {
            assert(placeable(last, len));
            assert forall|i: int| 0 <= i < loadable(phs).len() implies placeable(#[trigger] loadable(phs)[i], len) by {
                if i < loadable(rest).len() {
                    assert(loadable(phs)[i] == loadable(rest)[i]);
                }
            }
        }
    }
}

/// The loading plan of a program from its header `h`, its program headers `phs`
/// and the length `len` of its file: the entry point and where each loadable
/// segment lands, in order; `None` when the header is not that of a 64-bit RISC-V
/// executable or a loadable segment cannot be placed.
pub fn plan_load(h: &ElfHeaderInfo, phs: &[ProgramHeaderInfo], len: u64) -> (r: Option<(u64, Vec<SegmentMap>)>)
    ensures
        r is Some <==> accepted_entry(*h) is Some && segments_placeable(phs@, len as int),
        r matches Some(p) ==> plans(*h, phs@, len as int, p.0, p.1@),
{
    let entry = match entry_point(h) {
        Some(e) => e,
        None => return None,
    };
    let mut k: usize = 0;
    while k < phs.len()
        invariant
            k <= phs@.len(),
            forall|j: int| 0 <= j < k && (#[trigger] phs@[j]).is_load ==> placeable(phs@[j], len as int),
        decreases phs@.len() - k,
    {
        let ph = &phs[k];
        if ph.is_load {
            if !(ph.offset <= len && ph.file_size <= len - ph.offset && ph.mem_size <= u64::MAX - ph.virtual_addr
                && ph.offset % 4096 == ph.virtual_addr % 4096) {
                assert(!placeable(phs@[k as int], len as int));
                return None;
            }
        }
        k = k + 1;
    }
    let plan = plan_segments(phs, len);
    Some((entry, plan))
}

/// The loader can take the file `bytes` whatever the host's byte order: xmas-elf
/// reads a 64-bit header from it, and its type and machine fields show an
/// executable for RISC-V.
pub open spec fn may_load(bytes: Seq<u8>) -> bool {
    &&& elf_accepts(bytes)
    &&& bytes[4] == 2
    &&& small_field(bytes, 16, 2, 2)
    &&& small_field(bytes, 18, 2, 0xf3)
}

/// Entries of the program header table that the loader reads under header `h`.
pub open spec fn entries_read(h: ElfHeaderInfo) -> int {
    if has_table(h) {
        h.ph_count as int
    } else {
        0
    }
}

/// `entry` and `plan` come from the file `bytes`: there are a header that agrees
/// with the file and a program header for each entry of its table, of which they
/// are the loading plan, and the table can be read.
pub open spec fn planned_from(bytes: Seq<u8>, entry: u64, plan: Seq<SegmentMap>) -> bool {
    exists|h: ElfHeaderInfo, phs: Seq<ProgramHeaderInfo>|
        #[trigger] plans(h, phs, bytes.len() as int, entry, plan) && header_agrees(h, bytes) && table_fits(
            h,
            bytes.len() as int,
        ) && phs.len() == entries_read(h)
}

/// Reads the ELF file `bytes` with xmas-elf and plans its loading.  `None` when
/// xmas-elf reads no header, when the header is not that of a 64-bit RISC-V
/// executable, when the program header table cannot be read (`table_readable`),
/// or when a loadable segment cannot be placed (`plan_load`).  xmas-elf reads the
/// numbers in the host's byte order; whatever it reads, a plan is the exact plan of
/// a header that agrees with the file and of one program header per table entry,
/// and every segment's file bytes lie inside the file.
pub fn elf_load_plan(bytes: &[u8]) -> (r: Option<(u64, Vec<SegmentMap>)>)
    ensures
        !may_load(bytes@) ==> r is None,
        r matches Some(p) ==> planned_from(bytes@, p.0, p.1@),
        r matches Some(p) ==> forall|i: int|
            0 <= i < p.1@.len() ==> #[trigger] p.1@[i].file_start + p.1@[i].file_len <= bytes@.len(),
{
    let img = match parse_elf(bytes) {
        Some(img) => img,
        None => return None,
    };
    let h = img.header;
    if entry_point(&h).is_none() {
        return None;
    }
    let len = bytes.len() as u64;
    if !table_readable(&h, len) {
        return None;
    }
    let mut phs: Vec<ProgramHeaderInfo> = Vec::new();
    if h.ph_offset > 0 && h.ph_entry_size > 0 {
        let mut i: u16 = 0;
        while i < h.ph_count
            invariant
                img.len == len,
                img.len <= img.words@.len() * 8,
                h == img.header,
                h.is_64,
                has_table(h),
                table_fits(h, len as int),
                i <= h.ph_count,
                phs@.len() == i,
            decreases h.ph_count - i,
        {
            assert(entry_readable(h, i as int, len as int));
            match read_program_header(&img, i) {
                Some(ph) => phs.push(ph),
                None => {},
            }
            i = i + 1;
        }
    }
    let r = plan_load(&h, phs.as_slice(), len);
    proof {
        if r is Some {
            let p = r->0;
            assert(plans(h, phs@, len as int, p.0, p.1@));
            assert(planned_from(bytes@, p.0, p.1@));
            lemma_loadable_placeable(phs@, len as int);
            assert forall|i: int| 0 <= i < p.1@.len() implies #[trigger] p.1@[i].file_start + p.1@[i].file_len
                <= bytes@.len() by {
                assert(placed_as(p.1@[i], loadable(phs@)[i]));
                assert(placeable(loadable(phs@)[i], len as int));
            }
        }
    }
    r
}

/// First virtual page of the two-page user stack.
pub const USER_STACK_VPN_START: u64 = 0x3ff_fffe;

/// One past the last virtual page of the user stack.
pub const USER_STACK_VPN_END: u64 = 0x400_0000;

/// Initial user stack pointer: the top of the stack pages.
pub const USER_SP: u64 = 0x40_0000_0000;

/// The `satp` value that selects Sv39 paging with the page table whose root is at
/// physical page `root_ppn`.
pub fn satp_for(root_ppn: u64) -> (r: u64)
    ensures
        r == 0x8000_0000_0000_0000u64 | root_ppn,
        root_ppn < 0x1000_0000_0000_0000 ==> r == 0x8000_0000_0000_0000 + root_ppn,
{
    let r = (8u64 << 60) | root_ppn;
    assert(r == 0x8000_0000_0000_0000u64 | root_ppn && (root_ppn < 0x1000_0000_0000_0000u64 ==> r
        == 0x8000_0000_0000_0000u64 + root_ppn)) by (bit_vector)
        requires
            r == (8u64 << 60u64) | root_ppn,
    ;
    r
}

/// The physical page of a page-aligned block.
pub fn page_number(addr: u64) -> (r: u64)
    ensures
        r == addr / 4096,
{
    let r = addr >> 12;
    assert(r == addr / 4096) by (bit_vector)
        requires
            r == addr >> 12u64,
    ;
    r
}

} // verus!
